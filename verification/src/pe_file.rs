//! A PE image read from disk: its section table, and the globals that code
//! addresses through RIP-relative loads next to accesses of a given field.
use vstd::prelude::*;
use vstd::utf8::{valid_utf8, decode_utf8};
use std::collections::BTreeSet;
use crate::sigscanner::{
    le_value, le_i32, wrap_u64, trim_trailing_nul, trim_nul_string, is_code_section, is_code_section_name,
    lemma_le_value_2, lemma_le_value_4,
};
use crate::pattern::is_rip_relative_modrm;

verus! {

broadcast use {vstd::string::group_string_axioms, vstd::laws_cmp::group_laws_cmp};

// ── Header layout ───────────────────────────────────────────────────────────

/// Offset of the COFF header: the PE signature offset stored at 0x3C, plus 4.
pub open spec fn coff_offset(data: Seq<u8>) -> int {
    le_value(data, 0x3C, 4) + 4
}

pub open spec fn section_count(data: Seq<u8>) -> int {
    le_value(data, coff_offset(data) + 2, 2)
}

/// Offset of the section table: after the COFF header and the optional header.
pub open spec fn section_table_offset(data: Seq<u8>) -> int {
    coff_offset(data) + 20 + le_value(data, coff_offset(data) + 16, 2)
}

/// Offset of the `i`-th 40-byte section header.
pub open spec fn section_header_offset(data: Seq<u8>, i: int) -> int {
    section_table_offset(data) + 40 * i
}

/// Every header field that the section table walk reads lies inside `data`.
pub open spec fn headers_in_bounds(data: Seq<u8>) -> bool {
    &&& 0x40 <= data.len()
    &&& coff_offset(data) + 18 <= data.len()
    &&& section_table_offset(data) <= usize::MAX
    &&& section_count(data) > 0 ==> section_header_offset(data, section_count(data) - 1) + 24
        <= data.len()
}

/// `String::from_utf8_lossy` applied to `bytes`: their UTF-8 text with each
/// invalid sequence replaced by U+FFFD.
pub uninterp spec fn utf8_lossy(bytes: Seq<u8>) -> Seq<char>;

/// `String::from_utf8_lossy`, owned: the text named `utf8_lossy`, which for
/// valid UTF-8 is exactly the characters encoded.
#[verifier::external_body]
fn string_from_utf8_lossy(bytes: &[u8]) -> (r: String)
    ensures
        r@ == utf8_lossy(bytes@),
        valid_utf8(bytes@) ==> r@ == decode_utf8(bytes@),
{
    String::from_utf8_lossy(bytes).into_owned()
}

/// The text `String::from_utf8_lossy` gives for `bytes`: exactly the
/// characters they encode when they are valid UTF-8, the text named
/// `utf8_lossy` otherwise.
pub open spec fn lossy_text(bytes: Seq<u8>) -> Seq<char> {
    if valid_utf8(bytes) {
        decode_utf8(bytes)
    } else {
        utf8_lossy(bytes)
    }
}

/// One entry of the section table: name, virtual address, virtual size and
/// raw file offset.
pub open spec fn section_entry(data: Seq<u8>, i: int) -> (Seq<char>, u64, int, int) {
    let sh = section_header_offset(data, i);
    (
        trim_trailing_nul(lossy_text(data.subrange(sh, sh + 8))),
        le_value(data, sh + 12, 4) as u64,
        le_value(data, sh + 8, 4),
        le_value(data, sh + 20, 4),
    )
}

/// The section's raw bytes `[raw, raw + vsize)` lie inside the file.
pub open spec fn section_in_file(data: Seq<u8>, i: int) -> bool {
    section_entry(data, i).3 + section_entry(data, i).2 <= data.len()
}

/// The entries of the first `n` section headers whose raw bytes lie in the file.
pub open spec fn section_entries_upto(data: Seq<u8>, n: int) -> Seq<(Seq<char>, u64, int, int)>
    decreases n,
{
    if n <= 0 {
        seq![]
    } else if section_in_file(data, n - 1) {
        section_entries_upto(data, n - 1).push(section_entry(data, n - 1))
    } else {
        section_entries_upto(data, n - 1)
    }
}

pub open spec fn section_entries(data: Seq<u8>) -> Seq<(Seq<char>, u64, int, int)> {
    section_entries_upto(data, section_count(data))
}

/// The view of an entry returned by `parse_sections`.
pub open spec fn entry_view(e: (String, u64, usize, usize)) -> (Seq<char>, u64, int, int) {
    (e.0@, e.1, e.2 as int, e.3 as int)
}

fn le_u16_at(d: &[u8], i: usize) -> (r: usize)
    requires
        i + 2 <= d@.len(),
    ensures
        r == le_value(d@, i as int, 2),
        r <= 65535,
{
    proof {
        lemma_le_value_2(d@, i as int);
    }
    d[i] as usize + 256 * (d[i + 1] as usize)
}

fn le_u32_at(d: &[u8], i: usize) -> (r: u32)
    requires
        i + 4 <= d@.len(),
    ensures
        r == le_value(d@, i as int, 4),
{
    proof {
        lemma_le_value_4(d@, i as int);
    }
    d[i] as u32 + 256 * (d[i + 1] as u32) + 65536 * (d[i + 2] as u32) + 16777216 * (d[i
        + 3] as u32)
}

/// Whether every header field that `parse_sections` reads lies inside `data`.
pub fn headers_readable(data: &[u8]) -> (r: bool)
    ensures
        r == headers_in_bounds(data@),
{
    let len = data.len();
    if len < 0x40 {
        return false;
    }
    let coff: u64 = le_u32_at(data, 0x3C) as u64 + 4;
    if coff + 18 > len as u64 {
        return false;
    }
    let c = coff as usize;
    let num = le_u16_at(data, c + 2) as u64;
    let opt = le_u16_at(data, c + 16) as u64;
    let table: u64 = coff + 20 + opt;
    if table > usize::MAX as u64 {
        return false;
    }
    if num > 0 {
        assert(0 <= 40 * (num - 1) <= 40 * 65535) by (nonlinear_arith)
            requires
                0 < num <= 65535,
        ;
        table + 40 * (num - 1) + 24 <= len as u64
    } else {
        true
    }
}

/// Read the section table of a PE file image: for every section whose raw
/// bytes lie in the file, its name, virtual address, virtual size and raw
/// offset, in table order.
pub fn parse_sections(data: &[u8]) -> (r: Vec<(String, u64, usize, usize)>)
    requires
        headers_in_bounds(data@),
    ensures
        r@.len() == section_entries(data@).len(),
        forall|k: int| 0 <= k < r@.len() ==> entry_view(#[trigger] r@[k]) == section_entries(data@)[k],
        entries_fit(data@, r@),
{
    let dlen = data.len();
    let e32 = le_u32_at(data, 0x3C);
    let e_lfanew = e32 as usize;
    assert(e_lfanew + 4 == coff_offset(data@));
    assert(coff_offset(data@) + 18 <= data@.len());
    let pe = e_lfanew + 4;
    let num_sections = le_u16_at(data, pe + 2);
    let opt_size = le_u16_at(data, pe + 16);
    let sec_table = pe + 20 + opt_size;
    let mut sections: Vec<(String, u64, usize, usize)> = Vec::new();
    let mut i: usize = 0;
    while i < num_sections
        invariant
            dlen == data@.len(),
            headers_in_bounds(data@),
            num_sections == section_count(data@),
            sec_table == section_table_offset(data@),
            i <= num_sections,
            sections@.len() == section_entries_upto(data@, i as int).len(),
            entries_fit(data@, sections@),
            forall|k: int|
                0 <= k < sections@.len() ==> entry_view(#[trigger] sections@[k])
                    == section_entries_upto(data@, i as int)[k],
        decreases num_sections - i,
    {
        assert(section_header_offset(data@, i as int) + 24 <= data@.len()) by {
            assert(40 * i <= 40 * (section_count(data@) - 1)) by (nonlinear_arith)
                requires
                    i <= section_count(data@) - 1,
            ;
        }
        let sh = sec_table + i * 40;
        let va = le_u32_at(data, sh + 12) as u64;
        let vsize = le_u32_at(data, sh + 8) as usize;
        let raw = le_u32_at(data, sh + 20) as usize;
        let name_bytes = &data[sh..sh + 8];
        let lossy = string_from_utf8_lossy(name_bytes);
        let name = trim_nul_string(lossy.as_str());
        let ghost before = sections@;
        if vsize <= data.len() && raw <= data.len() - vsize {
            sections.push((name, va, vsize, raw));
            assert(entry_view(sections@[before.len() as int]) == section_entry(data@, i as int));
        }
        assert forall|k: int|
            0 <= k < sections@.len() implies entry_view(#[trigger] sections@[k])
            == section_entries_upto(data@, i + 1)[k] by {
            if k < before.len() {
                assert(sections@[k] == before[k]);
            }
        }
        i = i + 1;
    }
    sections
}

// ── Globals referenced next to field accesses ───────────────────────────────

/// A REX.W MOV r64, [rip + disp32] (48 8B with RIP-relative ModRM) starts at `j`.
pub open spec fn is_rip_load_at(sec: Seq<u8>, j: int) -> bool {
    &&& sec[j] == 0x48
    &&& sec[j + 1] == 0x8B
    &&& is_rip_relative_modrm(sec[j + 2])
}

/// The global that the 7-byte RIP-relative load at `j` reads, for a section at `va`.
pub open spec fn rip_load_global(sec: Seq<u8>, va: u64, j: int) -> u64 {
    wrap_u64(va + j + 7 + le_i32(sec, j + 3))
}

/// How far back from an access the search for loads of globals reaches (exclusive).
pub const GLOBAL_SEARCH_BACK: usize = 0x120;

/// Globals loaded by RIP-relative loads that start 3 to `back - 1` bytes before `i`.
pub open spec fn globals_within(sec: Seq<u8>, va: u64, i: int, back: int) -> Set<u64> {
    Set::new(
        |g: u64|
            exists|j: int|
                #![trigger is_rip_load_at(sec, j)]
                0 <= j && i - back < j <= i - 3 && is_rip_load_at(sec, j) && g == rip_load_global(
                    sec,
                    va,
                    j,
                ),
    )
}

/// Globals loaded by RIP-relative loads starting 3 to 0x11F bytes before `i`.
pub open spec fn globals_before(sec: Seq<u8>, va: u64, i: int) -> Set<u64> {
    globals_within(sec, va, i, GLOBAL_SEARCH_BACK as int)
}

/// The address of the load at `j` as a signed 64-bit value (the bits of
/// `va + j` read as two's complement).
pub open spec fn load_address_i64(va: u64, j: int) -> int {
    if va + j > i64::MAX {
        va + j - 0x1_0000_0000_0000_0000
    } else {
        va + j
    }
}

/// The address arithmetic for the load at `j` stays in range: `va + j` fits
/// 64 bits, and adding 7 and then the displacement to its signed value stays
/// inside `i64`.
pub open spec fn load_arith_fits(sec: Seq<u8>, va: u64, j: int) -> bool {
    &&& va + j <= u64::MAX
    &&& load_address_i64(va, j) + 7 <= i64::MAX
    &&& i64::MIN <= load_address_i64(va, j) + 7 + le_i32(sec, j + 3) <= i64::MAX
}

/// Add to `globals` every global loaded by a RIP-relative load in the 0x120
/// bytes before the access at `i` of a section at `va`.
pub fn collect_globals(sec: &[u8], va: u64, i: usize, globals: &mut BTreeSet<u64>)
    requires
        i >= 3 ==> i <= sec@.len(),
        forall|j: int|
            0 <= j && i - GLOBAL_SEARCH_BACK < j <= i - 3 && #[trigger] is_rip_load_at(sec@, j)
                ==> j + 7 <= sec@.len() && load_arith_fits(sec@, va, j),
    ensures
        final(globals)@ == old(globals)@.union(globals_before(sec@, va, i as int)),
{
    let ghost start = old(globals)@;
    let mut back: usize = 3;
    assert(globals_within(sec@, va, i as int, 3) =~= Set::<u64>::empty());
    assert(globals@ =~= start.union(globals_within(sec@, va, i as int, 3)));
    while back < GLOBAL_SEARCH_BACK
        invariant
            3 <= back <= GLOBAL_SEARCH_BACK,
            i >= 3 ==> i <= sec@.len(),
            forall|j: int|
                0 <= j && i - GLOBAL_SEARCH_BACK < j <= i - 3 && #[trigger] is_rip_load_at(sec@, j)
                    ==> j + 7 <= sec@.len() && load_arith_fits(sec@, va, j),
            globals@ == start.union(globals_within(sec@, va, i as int, back as int)),
        decreases GLOBAL_SEARCH_BACK - back,
    {
        let ghost before = globals@;
        let ghost old_set = globals_within(sec@, va, i as int, back as int);
        let ghost new_set = globals_within(sec@, va, i as int, back + 1);
        let mut hit = false;
        if i >= back {
            let j = i - back;
            if sec[j] == 0x48 && sec[j + 1] == 0x8B && (sec[j + 2] & 0xC7) == 0x05 {
                assert(is_rip_load_at(sec@, j as int));
                let disp = crate::sigscanner::decode_le_i32(sec, j + 3);
                assert(load_arith_fits(sec@, va, j as int));
                let instr_rva = va + j as u64;
                let signed: i64 = if instr_rva <= i64::MAX as u64 {
                    instr_rva as i64
                } else {
                    ((instr_rva - 0x8000_0000_0000_0000) as i64) + i64::MIN
                };
                assert(signed == load_address_i64(va, j as int));
                let sum: i64 = signed + 7 + (disp as i64);
                let global_rva: u64 = if sum >= 0 {
                    sum as u64
                } else {
                    u64::MAX - ((-(sum + 1)) as u64)
                };
                assert(global_rva == rip_load_global(sec@, va, j as int));
                globals.insert(global_rva);
                hit = true;
                assert(is_rip_load_at(sec@, j as int));
                assert(new_set.contains(global_rva));
            }
        }
        assert(hit ==> i >= back && is_rip_load_at(sec@, i - back));
        assert(!hit ==> !(i >= back && is_rip_load_at(sec@, i - back)));
        assert(globals@ =~= start.union(new_set)) by {
            assert forall|g: u64| old_set.contains(g) implies new_set.contains(g) by {
                let j = choose|j: int|
                    #![trigger is_rip_load_at(sec@, j)]
                    0 <= j && i - back < j <= i - 3 && is_rip_load_at(sec@, j) && g
                        == rip_load_global(sec@, va, j);
                assert(is_rip_load_at(sec@, j));
            }
            assert forall|g: u64| new_set.contains(g) implies globals@.contains(g) by {
                let j = choose|j: int|
                    #![trigger is_rip_load_at(sec@, j)]
                    0 <= j && i - (back + 1) < j <= i - 3 && is_rip_load_at(sec@, j) && g
                        == rip_load_global(sec@, va, j);
                if j > i - back {
                    assert(is_rip_load_at(sec@, j));
                    assert(old_set.contains(g));
                } else {
                    assert(j == i - back);
                }
            }
        }
        back = back + 1;
    }
}

/// An SSE scalar load or store (F3 0F 10 / F3 0F 11) at `i` whose 32-bit
/// displacement (bytes `i + 4 .. i + 8`) is `field`.
pub open spec fn is_field_access_at(sec: Seq<u8>, i: int, field: u32) -> bool {
    &&& sec[i] == 0xF3
    &&& sec[i + 1] == 0x0F
    &&& (sec[i + 2] == 0x10 || sec[i + 2] == 0x11)
    &&& le_value(sec, i + 4, 4) == field
}

/// Offsets scanned for field accesses: `0 <= i < len - 8`.
pub open spec fn access_scan_end(len: int) -> int {
    if len >= 8 {
        len - 8
    } else {
        0
    }
}

/// Globals loaded before any access of `field` at an offset below `n`.
pub open spec fn field_globals_upto(sec: Seq<u8>, va: u64, field: u32, n: int) -> Set<u64> {
    Set::new(
        |g: u64|
            exists|i: int|
                #![trigger is_field_access_at(sec, i, field)]
                0 <= i < n && is_field_access_at(sec, i, field) && globals_before(sec, va, i).contains(g),
    )
}

/// The bytes of a section-table entry in the file.
pub open spec fn entry_bytes(data: Seq<u8>, e: (Seq<char>, u64, int, int)) -> Seq<u8> {
    data.subrange(e.3, e.3 + e.2)
}

/// Globals loaded next to accesses of `field` in a `.text` or `.UBX…` section;
/// other sections contribute none.
pub open spec fn entry_field_globals(data: Seq<u8>, e: (Seq<char>, u64, int, int), field: u32) -> Set<
    u64,
> {
    if is_code_section(e.0, 0) {
        let sec = entry_bytes(data, e);
        field_globals_upto(sec, e.1, field, access_scan_end(sec.len() as int))
    } else {
        Set::empty()
    }
}

/// Globals loaded next to accesses of `field` in the first `n` entries.
pub open spec fn field_globals_in_entries(
    data: Seq<u8>,
    entries: Seq<(Seq<char>, u64, int, int)>,
    field: u32,
    n: int,
) -> Set<u64> {
    Set::new(
        |g: u64|
            exists|k: int|
                0 <= k < n && #[trigger] entry_field_globals(data, entries[k], field).contains(g),
    )
}

/// Section-table entries as `parse_sections` returns them: the raw bytes lie
/// in the file and the address and size are 32-bit values.
pub open spec fn entries_fit(data: Seq<u8>, sections: Seq<(String, u64, usize, usize)>) -> bool {
    forall|k: int|
        0 <= k < sections.len() ==> {
            &&& #[trigger] sections[k].3 + sections[k].2 <= data.len()
            &&& sections[k].1 <= u32::MAX
            &&& sections[k].2 <= u32::MAX
        }
}

/// Law: in a `.text` or `.UBX…` section, for every SSE scalar load (F3 0F 10)
/// or store (F3 0F 11) at `i < len - 8` whose 32-bit displacement (bytes
/// `i + 4 .. i + 8`) is `field`, every global that a `48 8B` load with a
/// RIP-relative ModRM starting 3 to 0x11F bytes before `i` reads (the end of
/// the 7-byte load plus its signed displacement, wrapping) is reported.
pub proof fn lemma_field_access_globals_reported(
    data: Seq<u8>,
    entries: Seq<(Seq<char>, u64, int, int)>,
    field: u32,
    k: int,
    i: int,
    j: int,
)
    requires
        0 <= k < entries.len(),
        is_code_section(entries[k].0, 0),
        ({
            let sec = entry_bytes(data, entries[k]);
            &&& 0 <= i < sec.len() - 8
            &&& sec[i] == 0xF3
            &&& sec[i + 1] == 0x0F
            &&& (sec[i + 2] == 0x10 || sec[i + 2] == 0x11)
            &&& le_value(sec, i + 4, 4) == field
            &&& 0 <= j && i - 0x120 < j <= i - 3
            &&& sec[j] == 0x48
            &&& sec[j + 1] == 0x8B
            &&& sec[j + 2] & 0xC7 == 0x05
        }),
    ensures
        field_globals_in_entries(data, entries, field, entries.len() as int).contains(
            wrap_u64(entries[k].1 + j + 7 + le_i32(entry_bytes(data, entries[k]), j + 3)),
        ),
{
    let sec = entry_bytes(data, entries[k]);
    let va = entries[k].1;
    let g = wrap_u64(va + j + 7 + le_i32(sec, j + 3));
    assert(is_rip_load_at(sec, j));
    assert(g == rip_load_global(sec, va, j));
    assert(globals_before(sec, va, i).contains(g));
    assert(is_field_access_at(sec, i, field));
    assert(field_globals_upto(sec, va, field, access_scan_end(sec.len() as int)).contains(g));
    assert(entry_field_globals(data, entries[k], field).contains(g));
}

/// Law: every global reported comes from a `.text` or `.UBX…` section, from a
/// `48 8B` load with a RIP-relative ModRM starting 3 to 0x11F bytes before an
/// SSE scalar load (F3 0F 10) or store (F3 0F 11) at `i < len - 8` whose
/// 32-bit displacement is `field`: it is the end of the 7-byte load plus its
/// signed displacement, wrapping.
pub proof fn lemma_field_globals_sound(
    data: Seq<u8>,
    entries: Seq<(Seq<char>, u64, int, int)>,
    field: u32,
    g: u64,
)
    requires
        field_globals_in_entries(data, entries, field, entries.len() as int).contains(g),
    ensures
        exists|k: int, i: int, j: int|
            #![trigger entry_bytes(data, entries[k])[i], entry_bytes(data, entries[k])[j]]
            {
                let sec = entry_bytes(data, entries[k]);
                &&& 0 <= k < entries.len()
                &&& is_code_section(entries[k].0, 0)
                &&& 0 <= i < sec.len() - 8
                &&& sec[i] == 0xF3
                &&& sec[i + 1] == 0x0F
                &&& (sec[i + 2] == 0x10 || sec[i + 2] == 0x11)
                &&& le_value(sec, i + 4, 4) == field
                &&& 0 <= j && i - 0x120 < j <= i - 3
                &&& sec[j] == 0x48
                &&& sec[j + 1] == 0x8B
                &&& sec[j + 2] & 0xC7 == 0x05
                &&& g == wrap_u64(entries[k].1 + j + 7 + le_i32(sec, j + 3))
            },
{
    let k = choose|k: int|
        0 <= k < entries.len() && #[trigger] entry_field_globals(data, entries[k], field).contains(g);
    let sec = entry_bytes(data, entries[k]);
    let va = entries[k].1;
    assert(is_code_section(entries[k].0, 0));
    let upto = field_globals_upto(sec, va, field, access_scan_end(sec.len() as int));
    assert(upto.contains(g));
    let i = choose|i: int|
        #![trigger is_field_access_at(sec, i, field)]
        0 <= i < access_scan_end(sec.len() as int) && is_field_access_at(sec, i, field)
            && globals_before(sec, va, i).contains(g);
    let j = choose|j: int|
        #![trigger is_rip_load_at(sec, j)]
        0 <= j && i - GLOBAL_SEARCH_BACK < j <= i - 3 && is_rip_load_at(sec, j) && g == rip_load_global(
            sec,
            va,
            j,
        );
    assert(sec[i] == 0xF3 && sec[j] == 0x48);
}

/// Every global that a `.text` or `.UBX…` section loads through a 7-byte
/// RIP-relative MOV in the 0x120 bytes before an SSE scalar load or store
/// whose displacement is `field`.
pub fn field_globals(data: &[u8], sections: &Vec<(String, u64, usize, usize)>, field: u32) -> (r:
    BTreeSet<u64>)
    requires
        entries_fit(data@, sections@),
    ensures
        r@ == field_globals_in_entries(
            data@,
            sections@.map_values(|e: (String, u64, usize, usize)| entry_view(e)),
            field,
            sections@.len() as int,
        ),
{
    let ghost entries = sections@.map_values(|e: (String, u64, usize, usize)| entry_view(e));
    let mut globals: BTreeSet<u64> = BTreeSet::new();
    let dlen = data.len();
    let n = sections.len();
    let mut k: usize = 0;
    assert(field_globals_in_entries(data@, entries, field, 0) =~= Set::<u64>::empty());
    while k < n
        invariant
            n == sections@.len(),
            dlen == data@.len(),
            k <= n,
            entries_fit(data@, sections@),
            entries == sections@.map_values(|e: (String, u64, usize, usize)| entry_view(e)),
            globals@ == field_globals_in_entries(data@, entries, field, k as int),
        decreases n - k,
    {
        let entry = &sections[k];
        let ghost e = entries[k as int];
        assert(e == entry_view(sections@[k as int]));
        let ghost before = globals@;
        assert(sections@[k as int].3 + sections@[k as int].2 <= data@.len());
        if is_code_section_name(entry.0.as_str(), 0) {
            let va = entry.1;
            let sec = &data[entry.3..entry.3 + entry.2];
            let len = sec.len();
            let end = if len >= 8 {
                len - 8
            } else {
                0
            };
            let mut i: usize = 0;
            assert(field_globals_upto(sec@, va, field, 0) =~= Set::<u64>::empty());
            assert(globals@ =~= before.union(field_globals_upto(sec@, va, field, 0)));
            while i < end
                invariant
                    len == sec@.len(),
                    end == access_scan_end(len as int),
                    i <= end,
                    va <= u32::MAX,
                    len <= u32::MAX,
                    globals@ == before.union(field_globals_upto(sec@, va, field, i as int)),
                decreases end - i,
            {
                let ghost g_before = globals@;
                let hit = sec[i] == 0xF3 && sec[i + 1] == 0x0F && (sec[i + 2] == 0x10 || sec[i
                    + 2] == 0x11) && crate::pe_file::le_u32_at(sec, i + 4) == field;
                if hit {
                    assert forall|j: int|
                        0 <= j && i - GLOBAL_SEARCH_BACK < j <= i - 3 && #[trigger] is_rip_load_at(
                            sec@,
                            j,
                        ) implies j + 7 <= sec@.len() && load_arith_fits(sec@, va, j) by {
                        crate::sigscanner::lemma_le_value_4(sec@, j + 3);
                    }
                    collect_globals(sec, va, i, &mut globals);
                }
                assert(hit == is_field_access_at(sec@, i as int, field));
                assert(globals@ =~= before.union(field_globals_upto(sec@, va, field, i + 1))) by {
                    let old_set = field_globals_upto(sec@, va, field, i as int);
                    let new_set = field_globals_upto(sec@, va, field, i + 1);
                    assert forall|g: u64| old_set.contains(g) implies new_set.contains(g) by {
                        let ii = choose|ii: int|
                            #![trigger is_field_access_at(sec@, ii, field)]
                            0 <= ii < i && is_field_access_at(sec@, ii, field) && globals_before(
                                sec@,
                                va,
                                ii,
                            ).contains(g);
                        assert(is_field_access_at(sec@, ii, field));
                    }
                    assert forall|g: u64| new_set.contains(g) implies globals@.contains(g) by {
                        let ii = choose|ii: int|
                            #![trigger is_field_access_at(sec@, ii, field)]
                            0 <= ii < i + 1 && is_field_access_at(sec@, ii, field)
                                && globals_before(sec@, va, ii).contains(g);
                        if ii < i {
                            assert(is_field_access_at(sec@, ii, field));
                            assert(old_set.contains(g));
                        }
                    }
                    if hit {
                        assert forall|g: u64|
                            globals_before(sec@, va, i as int).contains(g) implies new_set.contains(
                            g,
                        ) by {
                            assert(is_field_access_at(sec@, i as int, field));
                        }
                    }
                }
                i = i + 1;
            }
            assert(sec@ =~= entry_bytes(data@, e));
            assert(globals@ =~= before.union(entry_field_globals(data@, e, field)));
        } else {
            assert(entry_field_globals(data@, e, field) =~= Set::<u64>::empty());
            assert(globals@ =~= before.union(entry_field_globals(data@, e, field)));
        }
        assert(globals@ =~= field_globals_in_entries(data@, entries, field, k + 1)) by {
            assert forall|g: u64|
                field_globals_in_entries(data@, entries, field, k + 1).contains(g) implies globals@.contains(g) by {
                let kk = choose|kk: int|
                    0 <= kk < k + 1 && #[trigger] entry_field_globals(
                        data@,
                        entries[kk],
                        field,
                    ).contains(g);
                if kk < k {
                    assert(before.contains(g));
                }
            }
        }
        k = k + 1;
    }
    globals
}

} // verus!
