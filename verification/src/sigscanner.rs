//! Signature scanning over a PE image mapped in another process: the image
//! model, reading it through a memory reader, scanning it for patterns and
//! cross-references, and resolving signature matches to target addresses.
use vstd::prelude::*;
use vstd::string::StrSliceExecFns;
use vstd::utf8::{valid_utf8, decode_utf8};
use crate::pattern::{
    Pattern, match_offsets, match_offsets_from, matches_at, lemma_no_match_skip,
    lemma_offsets_are_matches, is_rip_relative_modrm, pattern_from_text, is_valid_pattern_text, chars_of,
};

verus! {

broadcast use vstd::string::group_string_axioms;

// ── Memory reader trait ─────────────────────────────────────────────────────

/// Trait for reading memory from any source (kernel driver, ReadProcessMemory,
/// file-backed buffer, etc.).
///
/// What a read yields is up to the implementation and the memory behind it;
/// the only promise asked of an implementation is that it leaves the length of
/// the buffer alone. A `true` result means the whole buffer was filled.
pub trait MemoryRead {
    fn read_bytes(&self, addr: u64, buf: &mut [u8]) -> (ok: bool)
        ensures
            final(buf)@.len() == old(buf)@.len(),
    ;
}

/// Little-endian unsigned value of `n` bytes of `d` starting at `i`.
pub open spec fn le_value(d: Seq<u8>, i: int, n: nat) -> int
    decreases n,
{
    if n == 0 {
        0
    } else {
        d[i] + 256 * le_value(d, i + 1, (n - 1) as nat)
    }
}

/// Little-endian signed 32-bit value of the 4 bytes of `d` at `i`.
pub open spec fn le_i32(d: Seq<u8>, i: int) -> int {
    let u = le_value(d, i, 4);
    if u >= 0x8000_0000 {
        u - 0x1_0000_0000
    } else {
        u
    }
}

pub(crate) proof fn lemma_le_value_2(d: Seq<u8>, i: int)
    ensures
        le_value(d, i, 2) == d[i] + 256 * d[i + 1],
{
    reveal_with_fuel(le_value, 3);
}

pub(crate) proof fn lemma_le_value_4(d: Seq<u8>, i: int)
    ensures
        le_value(d, i, 4) == d[i] + 256 * d[i + 1] + 65536 * d[i + 2] + 16777216 * d[i + 3],
        0 <= le_value(d, i, 4) <= u32::MAX,
{
    reveal_with_fuel(le_value, 5);
}

/// Decode four little-endian bytes as a signed 32-bit value.
pub(crate) fn decode_le_i32(d: &[u8], i: usize) -> (r: i32)
    requires
        i + 4 <= d@.len(),
    ensures
        r as int == le_i32(d@, i as int),
{
    proof {
        lemma_le_value_4(d@, i as int);
    }
    let u: u64 = d[i] as u64 + 256 * (d[i + 1] as u64) + 65536 * (d[i + 2] as u64) + 16777216 * (
    d[i + 3] as u64);
    if u >= 0x8000_0000 {
        let s: i64 = u as i64 - 0x1_0000_0000;
        s as i32
    } else {
        u as i32
    }
}

/// The value of a 2-byte read: `None` when the read failed, else the
/// little-endian value of the bytes read.
pub fn u16_from_read(ok: bool, bytes: &[u8; 2]) -> (r: Option<u16>)
    ensures
        r == (if ok {
            Some(le_value(bytes@, 0, 2) as u16)
        } else {
            None::<u16>
        }),
{
    if ok {
        proof {
            lemma_le_value_2(bytes@, 0);
        }
        Some(bytes[0] as u16 + 256 * (bytes[1] as u16))
    } else {
        None
    }
}

/// The value of a 4-byte read: `None` when the read failed, else the
/// little-endian value of the bytes read.
pub fn u32_from_read(ok: bool, bytes: &[u8; 4]) -> (r: Option<u32>)
    ensures
        r == (if ok {
            Some(le_value(bytes@, 0, 4) as u32)
        } else {
            None::<u32>
        }),
{
    if ok {
        proof {
            lemma_le_value_4(bytes@, 0);
        }
        Some(
            bytes[0] as u32 + 256 * (bytes[1] as u32) + 65536 * (bytes[2] as u32) + 16777216 * (
            bytes[3] as u32),
        )
    } else {
        None
    }
}

/// The signed value of a 4-byte read: `None` when the read failed, else the
/// little-endian two's-complement value of the bytes read.
pub fn i32_from_read(ok: bool, bytes: &[u8; 4]) -> (r: Option<i32>)
    ensures
        r == (if ok {
            Some(le_i32(bytes@, 0) as i32)
        } else {
            None::<i32>
        }),
{
    if ok {
        Some(decode_le_i32(bytes, 0))
    } else {
        None
    }
}

/// Read 2 bytes at `addr` through `reader` into `buf`, and take their value
/// as `u16_from_read` does: `None` when the read fails.
pub fn read_u16(reader: &dyn MemoryRead, addr: u64, buf: &mut [u8; 2]) -> (r: Option<u16>)
    ensures
        final(buf)@.len() == 2,
        r matches Some(v) ==> v == le_value(final(buf)@, 0, 2),
{
    let ok = reader.read_bytes(addr, buf);
    proof {
        lemma_le_value_2(buf@, 0);
    }
    u16_from_read(ok, buf)
}

/// Read 4 bytes at `addr` through `reader` into `buf`, and take their value
/// as `u32_from_read` does: `None` when the read fails.
pub fn read_u32(reader: &dyn MemoryRead, addr: u64, buf: &mut [u8; 4]) -> (r: Option<u32>)
    ensures
        final(buf)@.len() == 4,
        r matches Some(v) ==> v == le_value(final(buf)@, 0, 4),
{
    let ok = reader.read_bytes(addr, buf);
    proof {
        lemma_le_value_4(buf@, 0);
    }
    u32_from_read(ok, buf)
}

/// Read 4 bytes at `addr` through `reader` into `buf`, and take their signed
/// value as `i32_from_read` does: `None` when the read fails.
pub fn read_i32(reader: &dyn MemoryRead, addr: u64, buf: &mut [u8; 4]) -> (r: Option<i32>)
    ensures
        final(buf)@.len() == 4,
        r matches Some(v) ==> v as int == le_i32(final(buf)@, 0),
{
    let ok = reader.read_bytes(addr, buf);
    proof {
        lemma_le_value_4(buf@, 0);
    }
    i32_from_read(ok, buf)
}

// ── PE section info and image ───────────────────────────────────────────────

pub struct SectionInfo {
    pub name: String,
    pub virtual_address: u32,
    pub virtual_size: u32,
    pub data: Vec<u8>,
}

/// A PE image mapped in a remote process, with section data pulled into local buffers.
pub struct ProcessImage {
    pub base: u64,
    pub sections: Vec<SectionInfo>,
}

/// Virtual address of the first byte of a section of an image at `base`.
pub open spec fn section_start(base: u64, sec: SectionInfo) -> int {
    base + sec.virtual_address
}

impl ProcessImage {
    /// Every section's local bytes lie at virtual addresses below 2^64.
    pub open spec fn wf(&self) -> bool {
        forall|k: int|
            0 <= k < self.sections@.len() ==> section_start(self.base, #[trigger] self.sections@[k])
                + self.sections@[k].data@.len() <= u64::MAX
    }

    /// The addresses a scan for `pat` computes lie below 2^64: every section
    /// start, and, for a non-empty pattern, every address where it matches.
    pub open spec fn matches_fit(&self, pat: Seq<Option<u8>>) -> bool {
        forall|k: int|
            0 <= k < self.sections@.len() ==> {
                &&& section_start(self.base, #[trigger] self.sections@[k]) <= u64::MAX
                &&& forall|o: int|
                    pat.len() > 0 && #[trigger] matches_at(pat, self.sections@[k].data@, o) ==> section_start(
                        self.base,
                        self.sections@[k],
                    ) + o <= u64::MAX
            }
    }

    /// The addresses a cross-reference scan computes lie below 2^64: every
    /// section start, and the end of every section long enough to hold a
    /// displacement after a prefix, an opcode and a ModRM byte.
    pub open spec fn xref_scan_fits(&self) -> bool {
        forall|k: int|
            0 <= k < self.sections@.len() ==> {
                &&& section_start(self.base, #[trigger] self.sections@[k]) <= u64::MAX
                &&& self.sections@[k].data@.len() >= 7 ==> section_start(
                    self.base,
                    self.sections@[k],
                ) + self.sections@[k].data@.len() <= u64::MAX
            }
    }
}

/// An image whose bytes all lie below 2^64 can be scanned for any pattern.
pub proof fn lemma_wf_matches_fit(image: ProcessImage, pat: Seq<Option<u8>>)
    requires
        image.wf(),
    ensures
        image.matches_fit(pat),
        image.xref_scan_fits(),
{
    assert forall|k: int| 0 <= k < image.sections@.len() implies {
        &&& section_start(image.base, #[trigger] image.sections@[k]) <= u64::MAX
        &&& forall|o: int|
            pat.len() > 0 && #[trigger] matches_at(pat, image.sections@[k].data@, o) ==> section_start(
                image.base,
                image.sections@[k],
            ) + o <= u64::MAX
    } by {
        assert(section_start(image.base, image.sections@[k]) + image.sections@[k].data@.len()
            <= u64::MAX);
    }
}

/// The virtual addresses of every match of `pat` in one section, in order.
pub open spec fn section_match_vas(pat: Seq<Option<u8>>, base: u64, sec: SectionInfo) -> Seq<u64> {
    match_offsets(pat, sec.data@).map_values(|o: int| (section_start(base, sec) + o) as u64)
}

/// The virtual addresses of every match of `pat` in `secs`, section by section.
pub open spec fn image_match_vas(pat: Seq<Option<u8>>, base: u64, secs: Seq<SectionInfo>) -> Seq<
    u64,
>
    decreases secs.len(),
{
    if secs.len() == 0 {
        seq![]
    } else {
        image_match_vas(pat, base, secs.drop_last()) + section_match_vas(pat, base, secs.last())
    }
}

/// Every match address lies inside the section it was found in, so above the base.
proof fn lemma_image_match_vas_bounds(pat: Seq<Option<u8>>, base: u64, secs: Seq<SectionInfo>)
    requires
        forall|k: int|
            0 <= k < secs.len() ==> section_start(base, #[trigger] secs[k]) + secs[k].data@.len()
                <= u64::MAX,
    ensures
        forall|k: int|
            0 <= k < image_match_vas(pat, base, secs).len() ==> base <= #[trigger] image_match_vas(
                pat,
                base,
                secs,
            )[k],
    decreases secs.len(),
{
    if secs.len() > 0 {
        let init = secs.drop_last();
        lemma_image_match_vas_bounds(pat, base, init);
        let last = secs.last();
        assert(section_start(base, secs[secs.len() - 1]) + secs[secs.len() - 1].data@.len()
            <= u64::MAX);
        lemma_offsets_are_matches(pat, last.data@, 0);
        let a = image_match_vas(pat, base, init);
        let b = section_match_vas(pat, base, last);
        assert forall|k: int| 0 <= k < (a + b).len() implies base <= #[trigger] (a + b)[k] by {
            if k >= a.len() {
                let o = match_offsets(pat, last.data@)[k - a.len()];
                assert(matches_at(pat, last.data@, o));
                assert(b[k - a.len()] == (section_start(base, last) + o) as u64);
            }
        }
    }
}

/// `va` is the start of one of `secs` plus an offset where `pat` matches that
/// section's bytes.
pub open spec fn is_match_va(pat: Seq<Option<u8>>, base: u64, secs: Seq<SectionInfo>, va: u64) -> bool {
    exists|k: int, o: int|
        0 <= k < secs.len() && #[trigger] matches_at(pat, secs[k].data@, o) && va == (
        section_start(base, secs[k]) + o) as u64
}

/// Law: the addresses listed for an image are exactly the matches: each is
/// the start of a section plus an offset where the pattern matches that
/// section's bytes, and every such match of a non-empty pattern is listed.
pub proof fn lemma_image_match_vas_exact(pat: Seq<Option<u8>>, base: u64, secs: Seq<SectionInfo>)
    ensures
        forall|n: int|
            0 <= n < image_match_vas(pat, base, secs).len() ==> is_match_va(
                pat,
                base,
                secs,
                #[trigger] image_match_vas(pat, base, secs)[n],
            ),
        forall|k: int, o: int|
            0 <= k < secs.len() && pat.len() > 0 && #[trigger] matches_at(pat, secs[k].data@, o)
                ==> image_match_vas(pat, base, secs).contains(
                (section_start(base, secs[k]) + o) as u64,
            ),
    decreases secs.len(),
{
    if secs.len() > 0 {
        let init = secs.drop_last();
        let last = secs.last();
        let l = secs.len() - 1;
        lemma_image_match_vas_exact(pat, base, init);
        lemma_offsets_are_matches(pat, last.data@, 0);
        let a = image_match_vas(pat, base, init);
        let b = section_match_vas(pat, base, last);
        let offs = match_offsets(pat, last.data@);
        assert(image_match_vas(pat, base, secs) == a + b);
        assert forall|n: int| 0 <= n < image_match_vas(pat, base, secs).len() implies is_match_va(
            pat,
            base,
            secs,
            #[trigger] image_match_vas(pat, base, secs)[n],
        ) by {
            if n < a.len() {
                assert(a[n] == image_match_vas(pat, base, init)[n]);
                assert((a + b)[n] == a[n]);
                assert(is_match_va(pat, base, init, a[n]));
                let (k, o) = choose|k: int, o: int|
                    0 <= k < init.len() && #[trigger] matches_at(pat, init[k].data@, o) && a[n] == (
                    section_start(base, init[k]) + o) as u64;
                assert(secs[k] == init[k]);
                assert(matches_at(pat, secs[k].data@, o));
            } else {
                let o = offs[n - a.len()];
                assert((a + b)[n] == b[n - a.len()]);
                assert(matches_at(pat, last.data@, o));
                assert(secs[l] == last);
                assert(matches_at(pat, secs[l].data@, o));
            }
        }
        assert forall|k: int, o: int|
            0 <= k < secs.len() && pat.len() > 0 && #[trigger] matches_at(pat, secs[k].data@, o)
                implies (a + b).contains((section_start(base, secs[k]) + o) as u64) by {
            if k < l {
                assert(secs[k] == init[k]);
                assert(matches_at(pat, init[k].data@, o));
                let i = choose|i: int| 0 <= i < a.len() && a[i] == (section_start(base, init[k]) + o) as u64;
                assert((a + b)[i] == a[i]);
            } else {
                assert(secs[k] == last);
                crate::pattern::lemma_matches_are_listed(pat, last.data@, 0, o);
                let i = choose|i: int| 0 <= i < offs.len() && offs[i] == o;
                assert(b[i] == (section_start(base, last) + o) as u64);
                assert((a + b)[a.len() + i] == b[i]);
            }
        }
    } else {
        assert(image_match_vas(pat, base, secs) =~= Seq::<u64>::empty());
    }
}

/// Little-endian `i32` read from the local copy of the first section, from
/// `k` on, that holds all four bytes at `va`.
pub open spec fn local_i32_from(base: u64, secs: Seq<SectionInfo>, va: int, k: int) -> Option<int>
    decreases secs.len() - k,
{
    if k < 0 || k >= secs.len() {
        None
    } else {
        let start = section_start(base, secs[k]);
        if start <= va && va + 4 <= start + secs[k].data@.len() {
            Some(le_i32(secs[k].data@, va - start))
        } else {
            local_i32_from(base, secs, va, k + 1)
        }
    }
}

/// Little-endian `i32` at `va` in the image's local section data, if any section holds it.
pub open spec fn local_i32(image: ProcessImage, va: int) -> Option<int> {
    local_i32_from(image.base, image.sections@, va, 0)
}

// ── Cross-references ────────────────────────────────────────────────────────

/// Unsigned 64-bit wrap-around of `x`, for `-2^64 <= x < 2^65`.
pub open spec fn wrap_u64(x: int) -> u64 {
    if x > u64::MAX {
        (x - 0x1_0000_0000_0000_0000) as u64
    } else if x < 0 {
        (x + 0x1_0000_0000_0000_0000) as u64
    } else {
        x as u64
    }
}

/// REX prefix byte (0x40..=0x4F).
pub open spec fn is_rex_prefix(b: u8) -> bool {
    b & 0xF0 == 0x40
}

/// Opcodes accepted in front of a RIP-relative ModRM for a cross-reference.
pub open spec fn is_xref_opcode(op: u8) -> bool {
    op == 0x8B || op == 0x8D || op == 0x89 || op == 0x83 || op == 0xFF || op == 0x01 || op == 0x03
}

/// Bytes of immediate operand that follow the displacement: one for 0x83
/// (group-1 op with an 8-bit immediate), none for the other accepted opcodes.
pub open spec fn immediate_len(op: u8) -> int {
    if op == 0x83 {
        1
    } else {
        0
    }
}

/// Where the 32-bit displacement at offset `d` of a section starting at
/// `sec_base` points: RIP is the end of the instruction, that is the end of
/// the displacement plus the immediate that the opcode before the ModRM takes.
pub open spec fn rip_target(sec_base: int, data: Seq<u8>, d: int) -> u64 {
    wrap_u64(sec_base + d + 4 + immediate_len(data[d - 2]) + le_i32(data, d))
}

/// The displacement at `d` is part of a REX-prefixed instruction with a
/// RIP-relative ModRM that reaches `target`.
pub open spec fn is_xref_at(sec_base: int, data: Seq<u8>, d: int, target: u64) -> bool {
    &&& rip_target(sec_base, data, d) == target
    &&& is_rex_prefix(data[d - 3])
    &&& is_xref_opcode(data[d - 2])
    &&& is_rip_relative_modrm(data[d - 1])
}

/// The cross-references found at displacement offsets `3 <= d < end`, in order,
/// as (instruction address, target).
pub open spec fn section_xrefs(sec_base: int, data: Seq<u8>, target: u64, end: int) -> Seq<
    (u64, u64),
>
    decreases end,
{
    if end <= 3 {
        seq![]
    } else {
        section_xrefs(sec_base, data, target, end - 1) + if is_xref_at(
            sec_base,
            data,
            end - 1,
            target,
        ) {
            seq![((sec_base + end - 1 - 3) as u64, target)]
        } else {
            seq![]
        }
    }
}

/// Offsets scanned for displacements: `3 <= d < len - 3`.
pub open spec fn xref_scan_end(len: int) -> int {
    if len >= 3 {
        len - 3
    } else {
        0
    }
}

pub open spec fn image_xrefs(base: u64, secs: Seq<SectionInfo>, target: u64) -> Seq<(u64, u64)>
    decreases secs.len(),
{
    if secs.len() == 0 {
        seq![]
    } else {
        image_xrefs(base, secs.drop_last(), target) + section_xrefs(
            section_start(base, secs.last()),
            secs.last().data@,
            target,
            xref_scan_end(secs.last().data@.len() as int),
        )
    }
}

/// A hit at `d` is listed by the section scan up to any `end` past it.
proof fn lemma_section_xrefs_contains(sec_base: int, data: Seq<u8>, target: u64, end: int, d: int)
    requires
        3 <= d < end,
        is_xref_at(sec_base, data, d, target),
    ensures
        section_xrefs(sec_base, data, target, end).contains(((sec_base + d - 3) as u64, target)),
    decreases end,
{
    let x = ((sec_base + d - 3) as u64, target);
    let prev = section_xrefs(sec_base, data, target, end - 1);
    if d == end - 1 {
        let s = section_xrefs(sec_base, data, target, end);
        assert(s[s.len() - 1] == x);
    } else {
        lemma_section_xrefs_contains(sec_base, data, target, end - 1, d);
        let i = choose|i: int| 0 <= i < prev.len() && prev[i] == x;
        let s = section_xrefs(sec_base, data, target, end);
        assert(s[i] == x);
    }
}

/// Every pair listed for section `k` is listed for the image.
proof fn lemma_image_xrefs_contains(base: u64, secs: Seq<SectionInfo>, target: u64, k: int, x: (u64, u64))
    requires
        0 <= k < secs.len(),
        section_xrefs(
            section_start(base, secs[k]),
            secs[k].data@,
            target,
            xref_scan_end(secs[k].data@.len() as int),
        ).contains(x),
    ensures
        image_xrefs(base, secs, target).contains(x),
    decreases secs.len(),
{
    let init = secs.drop_last();
    let a = image_xrefs(base, init, target);
    let b = section_xrefs(
        section_start(base, secs.last()),
        secs.last().data@,
        target,
        xref_scan_end(secs.last().data@.len() as int),
    );
    if k == secs.len() - 1 {
        let i = choose|i: int| 0 <= i < b.len() && b[i] == x;
        assert((a + b)[a.len() + i] == x);
    } else {
        assert(init[k] == secs[k]);
        lemma_image_xrefs_contains(base, init, target, k, x);
        let i = choose|i: int| 0 <= i < a.len() && a[i] == x;
        assert((a + b)[i] == x);
    }
}

/// Law: every REX-prefixed (0x40..=0x4F) MOV (0x89, 0x8B), LEA (0x8D),
/// group-1 immediate (0x83), group-5 (0xFF), ADD (0x01, 0x03) instruction
/// with a RIP-relative ModRM (mod = 00, rm = 101) whose displacement lies at
/// `3 <= d < len - 3` of a section and whose RIP-relative target (the end of
/// the displacement, plus the 8-bit immediate of 0x83, plus the signed
/// displacement, wrapping) is `target` is listed as (instruction address,
/// target).
pub proof fn lemma_xrefs_complete(base: u64, secs: Seq<SectionInfo>, target: u64, k: int, d: int)
    requires
        0 <= k < secs.len(),
        3 <= d < secs[k].data@.len() - 3,
        0x40 <= secs[k].data@[d - 3] <= 0x4F,
        ({
            let op = secs[k].data@[d - 2];
            op == 0x89 || op == 0x8B || op == 0x8D || op == 0x83 || op == 0xFF || op == 0x01 || op
                == 0x03
        }),
        secs[k].data@[d - 1] & 0xC7 == 0x05,
        wrap_u64(
            section_start(base, secs[k]) + d + 4 + (if secs[k].data@[d - 2] == 0x83 {
                1int
            } else {
                0int
            }) + le_i32(secs[k].data@, d),
        ) == target,
    ensures
        image_xrefs(base, secs, target).contains(
            ((section_start(base, secs[k]) + d - 3) as u64, target),
        ),
{
    let data = secs[k].data@;
    let rex = data[d - 3];
    assert(rex & 0xF0 == 0x40) by (bit_vector)
        requires
            0x40 <= rex <= 0x4F,
    ;
    let sb = section_start(base, secs[k]);
    assert(is_xref_at(sb, data, d, target));
    lemma_section_xrefs_contains(sb, data, target, xref_scan_end(data.len() as int), d);
    lemma_image_xrefs_contains(base, secs, target, k, ((sb + d - 3) as u64, target));
}

/// Every pair the section scan lists up to `end` comes from a hit before `end`.
proof fn lemma_section_xrefs_sound(sec_base: int, data: Seq<u8>, target: u64, end: int, n: int)
    requires
        0 <= n < section_xrefs(sec_base, data, target, end).len(),
    ensures
        exists|d: int|
            3 <= d < end && #[trigger] is_xref_at(sec_base, data, d, target)
                && section_xrefs(sec_base, data, target, end)[n] == ((sec_base + d - 3) as u64, target),
    decreases end,
{
    let prev = section_xrefs(sec_base, data, target, end - 1);
    let s = section_xrefs(sec_base, data, target, end);
    if n < prev.len() {
        assert(s[n] == prev[n]);
        lemma_section_xrefs_sound(sec_base, data, target, end - 1, n);
    } else {
        assert(is_xref_at(sec_base, data, end - 1, target));
    }
}

/// Law: every pair listed for an image is (instruction address, `target`) for
/// a REX-prefixed (0x40..=0x4F) MOV (0x89, 0x8B), LEA (0x8D), 0x83, 0xFF, 0x01
/// or 0x03 instruction with a RIP-relative ModRM, whose displacement lies at
/// `3 <= d < len - 3` of one of the sections and whose RIP-relative target
/// (the end of the displacement, plus the 8-bit immediate of 0x83, plus the
/// signed displacement, wrapping) is `target`.
pub proof fn lemma_xrefs_sound(base: u64, secs: Seq<SectionInfo>, target: u64, n: int)
    requires
        0 <= n < image_xrefs(base, secs, target).len(),
    ensures
        exists|k: int, d: int|
            #![trigger secs[k].data@[d]]
            {
                let data = secs[k].data@;
                let op = data[d - 2];
                &&& 0 <= k < secs.len()
                &&& 3 <= d < data.len() - 3
                &&& 0x40 <= data[d - 3] <= 0x4F
                &&& (op == 0x89 || op == 0x8B || op == 0x8D || op == 0x83 || op == 0xFF || op
                    == 0x01 || op == 0x03)
                &&& data[d - 1] & 0xC7 == 0x05
                &&& wrap_u64(
                    section_start(base, secs[k]) + d + 4 + (if op == 0x83 {
                        1int
                    } else {
                        0int
                    }) + le_i32(data, d),
                ) == target
                &&& image_xrefs(base, secs, target)[n] == (
                    (section_start(base, secs[k]) + d - 3) as u64,
                    target,
                )
            },
    decreases secs.len(),
{
    let init = secs.drop_last();
    let l = secs.len() - 1;
    let a = image_xrefs(base, init, target);
    let last = secs.last();
    let sb = section_start(base, last);
    let b = section_xrefs(sb, last.data@, target, xref_scan_end(last.data@.len() as int));
    assert(image_xrefs(base, secs, target) == a + b);
    if n < a.len() {
        lemma_xrefs_sound(base, init, target, n);
        let (k, d) = choose|k: int, d: int|
            #![trigger init[k].data@[d]]
            {
                let data = init[k].data@;
                let op = data[d - 2];
                &&& 0 <= k < init.len()
                &&& 3 <= d < data.len() - 3
                &&& 0x40 <= data[d - 3] <= 0x4F
                &&& (op == 0x89 || op == 0x8B || op == 0x8D || op == 0x83 || op == 0xFF || op
                    == 0x01 || op == 0x03)
                &&& data[d - 1] & 0xC7 == 0x05
                &&& wrap_u64(
                    section_start(base, init[k]) + d + 4 + (if op == 0x83 {
                        1int
                    } else {
                        0int
                    }) + le_i32(data, d),
                ) == target
                &&& a[n] == ((section_start(base, init[k]) + d - 3) as u64, target)
            };
        assert(secs[k] == init[k]);
        assert((a + b)[n] == a[n]);
        assert(secs[k].data@[d] == init[k].data@[d]);
    } else {
        let m = n - a.len();
        assert((a + b)[n] == b[m]);
        lemma_section_xrefs_sound(sb, last.data@, target, xref_scan_end(last.data@.len() as int), m);
        let d = choose|d: int|
            3 <= d < xref_scan_end(last.data@.len() as int) && #[trigger] is_xref_at(
                sb,
                last.data@,
                d,
                target,
            ) && b[m] == ((sb + d - 3) as u64, target);
        let rex = last.data@[d - 3];
        assert(0x40 <= rex <= 0x4F) by (bit_vector)
            requires
                rex & 0xF0 == 0x40,
        ;
        assert(secs[l] == last);
        assert(secs[l].data@[d] == last.data@[d]);
    }
}

impl ProcessImage {
    /// Read a little-endian `i32` at a virtual address.
    fn read_i32_local(&self, va: u64) -> (r: Option<i32>)
        requires
            self.wf(),
        ensures
            match r {
                Some(v) => local_i32(*self, va as int) == Some(v as int),
                None => local_i32(*self, va as int) is None,
            },
    {
        let n = self.sections.len();
        let mut k: usize = 0;
        while k < n
            invariant
                n == self.sections@.len(),
                k <= n,
                self.wf(),
                local_i32(*self, va as int) == local_i32_from(
                    self.base,
                    self.sections@,
                    va as int,
                    k as int,
                ),
            decreases n - k,
        {
            let sec = &self.sections[k];
            assert(section_start(self.base, self.sections@[k as int]) + self.sections@[k as int].data@.len() <= u64::MAX);
            let sec_start = self.base + sec.virtual_address as u64;
            let len = sec.data.len();
            if va >= sec_start && va - sec_start <= len as u64 && 4 <= len as u64 - (va - sec_start) {
                let off = (va - sec_start) as usize;
                match self.data_slice(sec, off, 4) {
                    Some(bytes) => {
                        assert(bytes@ =~= sec.data@.subrange(off as int, off + 4));
                        let v = decode_le_i32(bytes, 0);
                        proof {
                            lemma_le_value_4(bytes@, 0);
                            lemma_le_value_4(sec.data@, off as int);
                        }
                        return Some(v);
                    },
                    None => {
                        return None;
                    },
                }
            }
            k = k + 1;
        }
        None
    }

    fn data_slice<'a>(&self, sec: &'a SectionInfo, offset: usize, len: usize) -> (r: Option<&'a [u8]>)
        ensures
            match r {
                Some(s) => offset + len <= sec.data@.len() && s@ == sec.data@.subrange(
                    offset as int,
                    offset + len,
                ),
                None => offset + len > sec.data@.len(),
            },
    {
        if len <= sec.data.len() && offset <= sec.data.len() - len {
            Some(&sec.data.as_slice()[offset..offset + len])
        } else {
            None
        }
    }
}

impl Pattern {
    /// Scan all executable sections in a process image.
    /// Returns the VA (virtual address) of the first match.
    pub fn scan_process_image(&self, image: &ProcessImage) -> (r: Option<u64>)
        requires
            image.matches_fit(self@),
        ensures
            ({
                let all = image_match_vas(self@, image.base, image.sections@);
                &&& all.len() == 0 ==> r is None
                &&& all.len() > 0 ==> r == Some(all[0])
            }),
    {
        let all = self.scan_process_image_all(image);
        if all.len() > 0 {
            Some(all[0])
        } else {
            None
        }
    }

    /// Scan all executable sections. Returns every match VA.
    pub fn scan_process_image_all(&self, image: &ProcessImage) -> (r: Vec<u64>)
        requires
            image.matches_fit(self@),
        ensures
            r@ == image_match_vas(self@, image.base, image.sections@),
    {
        let mut results: Vec<u64> = Vec::new();
        let nsec = image.sections.len();
        let plen = self.0.len();
        let mut k: usize = 0;
        while k < nsec
            invariant
                nsec == image.sections@.len(),
                plen == self@.len(),
                k <= nsec,
                image.matches_fit(self@),
                results@ == image_match_vas(self@, image.base, image.sections@.take(k as int)),
            decreases nsec - k,
        {
            let sec = &image.sections[k];
            let ghost secv = image.sections@[k as int];
            assert(section_start(image.base, secv) <= u64::MAX);
            let sec_base = image.base + sec.virtual_address as u64;
            let len = sec.data.len();
            let ghost before = results@;
            let ghost mut found: Seq<int> = seq![];
            let mut offset: usize = 0;
            let mut done = false;
            assert(match_offsets(self@, secv.data@) =~= found + match_offsets_from(
                self@,
                secv.data@,
                0,
            ));
            while !done && offset <= len && plen <= len - offset
                invariant
                    done ==> match_offsets_from(self@, secv.data@, offset as int) =~= Seq::<
                        int,
                    >::empty(),
                    plen == self@.len(),
                    len == secv.data@.len(),
                    sec_base == section_start(image.base, secv),
                    forall|o: int|
                        self@.len() > 0 && #[trigger] matches_at(self@, secv.data@, o) ==> sec_base
                            + o <= u64::MAX,
                    *sec == secv,
                    match_offsets(self@, secv.data@) == found + match_offsets_from(
                        self@,
                        secv.data@,
                        offset as int,
                    ),
                    results@ == before + found.map_values(|o: int| (sec_base + o) as u64),
                decreases len + 1 - offset + (if done { 0int } else { 1int }),
            {
                match self.scan_from(sec.data.as_slice(), offset) {
                    Some(i) => {
                        proof {
                            lemma_no_match_skip(self@, secv.data@, offset as int, i as int);
                            assert(match_offsets_from(self@, secv.data@, i as int) == seq![i as int]
                                + match_offsets_from(self@, secv.data@, i + 1));
                        }
                        let va = sec_base + i as u64;
                        results.push(va);
                        proof {
                            assert(found.push(i as int).map_values(|o: int| (sec_base + o) as u64)
                                =~= found.map_values(|o: int| (sec_base + o) as u64).push(va));
                            assert(found + (seq![i as int] + match_offsets_from(
                                self@,
                                secv.data@,
                                i + 1,
                            )) =~= found.push(i as int) + match_offsets_from(
                                self@,
                                secv.data@,
                                i + 1,
                            ));
                            found = found.push(i as int);
                        }
                        offset = i + 1;
                    },
                    None => {
                        proof {
                            if plen > 0 {
                                lemma_no_match_skip(
                                    self@,
                                    secv.data@,
                                    offset as int,
                                    len - plen + 1,
                                );
                            }
                            assert(match_offsets_from(self@, secv.data@, offset as int)
                                =~= Seq::<int>::empty());
                        }
                        done = true;
                    },
                }
            }
            proof {
                if !done {
                    assert(match_offsets_from(self@, secv.data@, offset as int) =~= Seq::<
                        int,
                    >::empty());
                }
                assert(found + Seq::<int>::empty() =~= found);
                assert(match_offsets(self@, secv.data@) == found);
                assert(found.map_values(|o: int| (sec_base + o) as u64) =~= section_match_vas(
                    self@,
                    image.base,
                    secv,
                ));
                assert(image.sections@.take(k + 1).drop_last() =~= image.sections@.take(k as int));
                assert(image.sections@.take(k + 1).last() == secv);
            }
            k = k + 1;
        }
        assert(image.sections@.take(nsec as int) =~= image.sections@);
        results
    }

    /// Find all RIP-relative cross-references to `target_va` across executable sections.
    /// Returns `(instr_va, resolved_va)` for every match.
    pub fn find_xrefs(image: &ProcessImage, target_va: u64) -> (r: Vec<(u64, u64)>)
        requires
            image.xref_scan_fits(),
        ensures
            r@ == image_xrefs(image.base, image.sections@, target_va),
    {
        let mut results: Vec<(u64, u64)> = Vec::new();
        let nsec = image.sections.len();
        let mut k: usize = 0;
        while k < nsec
            invariant
                nsec == image.sections@.len(),
                k <= nsec,
                image.xref_scan_fits(),
                results@ == image_xrefs(image.base, image.sections@.take(k as int), target_va),
            decreases nsec - k,
        {
            let sec = &image.sections[k];
            let ghost secv = image.sections@[k as int];
            assert(section_start(image.base, secv) <= u64::MAX);
            let sec_base = image.base + sec.virtual_address as u64;
            let data = &sec.data;
            let len = data.len();
            let end = len.saturating_sub(3);
            let ghost before = results@;
            let mut d: usize = 3;
            assert(section_xrefs(sec_base as int, data@, target_va, 3) =~= Seq::<
                (u64, u64),
            >::empty());
            while d < end
                invariant
                    len == data@.len(),
                    data@ == secv.data@,
                    end == xref_scan_end(len as int),
                    sec_base == section_start(image.base, secv),
                    len >= 7 ==> sec_base + len <= u64::MAX,
                    3 <= d,
                    d <= end || end < 3,
                    end < 3 ==> d == 3,
                    results@ == before + section_xrefs(sec_base as int, data@, target_va, d as int),
                decreases end - d,
            {
                let disp = decode_le_i32(data.as_slice(), d);
                let rex = data[d - 3];
                let op = data[d - 2];
                let imm: i64 = if op == 0x83 {
                    1
                } else {
                    0
                };
                let disp_end = sec_base + d as u64 + 4;
                let resolved = disp_end.wrapping_add_signed(disp as i64 + imm);
                let modrm = data[d - 1];
                let hit = resolved == target_va && rex & 0xF0 == 0x40 && (op == 0x8B || op == 0x8D
                    || op == 0x89 || op == 0x83 || op == 0xFF || op == 0x01 || op == 0x03) && modrm
                    & 0xC7 == 0x05;
                assert(hit == is_xref_at(sec_base as int, data@, d as int, target_va));
                if hit {
                    let instr_va = sec_base + (d as u64 - 3);
                    results.push((instr_va, resolved));
                }
                assert(results@ =~= before + section_xrefs(
                    sec_base as int,
                    data@,
                    target_va,
                    d + 1,
                ));
                d = d + 1;
            }
            proof {
                if end < 3 {
                    assert(section_xrefs(sec_base as int, data@, target_va, end as int) =~= Seq::<
                        (u64, u64),
                    >::empty());
                    assert(section_xrefs(sec_base as int, data@, target_va, d as int) =~= Seq::<
                        (u64, u64),
                    >::empty());
                }
                assert(image.sections@.take(k + 1).drop_last() =~= image.sections@.take(k as int));
                assert(image.sections@.take(k + 1).last() == secv);
            }
            k = k + 1;
        }
        assert(image.sections@.take(nsec as int) =~= image.sections@);
        results
    }
}

// ── Section headers ─────────────────────────────────────────────────────────

/// `s` without its trailing NUL characters.
pub open spec fn trim_trailing_nul(s: Seq<char>) -> Seq<char>
    decreases s.len(),
{
    if s.len() > 0 && s.last() == '\0' {
        trim_trailing_nul(s.drop_last())
    } else {
        s
    }
}

/// The name stored in the 8 raw name bytes of a section header: their UTF-8
/// text without trailing NULs, or `????` when they are not valid UTF-8.
pub open spec fn section_name_text(raw: Seq<u8>) -> Seq<char> {
    if valid_utf8(raw) {
        trim_trailing_nul(decode_utf8(raw))
    } else {
        seq!['?', '?', '?', '?']
    }
}

/// `s` without trailing NULs, as an owned string.
pub fn trim_nul_string(s: &str) -> (r: String)
    ensures
        r@ == trim_trailing_nul(s@),
{
    let chars = chars_of(s);
    let mut k = chars.len();
    assert(s@.take(k as int) =~= s@);
    while k > 0 && chars[k - 1] == '\0'
        invariant
            k <= chars@.len(),
            chars@ == s@,
            trim_trailing_nul(s@) == trim_trailing_nul(s@.take(k as int)),
        decreases k,
    {
        assert(s@.take(k as int).drop_last() =~= s@.take(k - 1));
        k = k - 1;
    }
    proof {
        let t = s@.take(k as int);
        if k > 0 {
            assert(t.last() == chars@[k - 1]);
        }
        assert(trim_trailing_nul(t) == t);
    }
    let trimmed = s.substring_char(0, k);
    assert(trimmed@ =~= s@.take(k as int));
    trimmed.to_owned()
}

/// Law: a section is code exactly when bit 0x2000_0000 (IMAGE_SCN_MEM_EXECUTE)
/// of its characteristics is set, its name is `.text`, or its name starts
/// with `.UBX`; and at most 256 MiB of it is read.
pub proof fn lemma_code_section_rule(name: Seq<char>, characteristics: u32, vsize: u32)
    ensures
        is_code_section(name, characteristics) <==> (characteristics & 0x2000_0000 != 0 || (
        name.len() == 5 && name[0] == '.' && name[1] == 't' && name[2] == 'e' && name[3] == 'x'
            && name[4] == 't') || (name.len() >= 4 && name[0] == '.' && name[1] == 'U' && name[2]
            == 'B' && name[3] == 'X')),
        section_read_len(vsize) == (if vsize <= 0x1000_0000 {
            vsize as int
        } else {
            0x1000_0000
        }),
{
    if name.len() == 5 && name[0] == '.' && name[1] == 't' && name[2] == 'e' && name[3] == 'x'
        && name[4] == 't' {
        assert(name =~= seq!['.', 't', 'e', 'x', 't']);
    }
    if name.len() >= 4 && name[0] == '.' && name[1] == 'U' && name[2] == 'B' && name[3] == 'X' {
        assert(name.take(4) =~= seq!['.', 'U', 'B', 'X']);
    }
    if name.len() >= 4 && name.take(4) == seq!['.', 'U', 'B', 'X'] {
        assert(name.take(4)[0] == '.' && name.take(4)[1] == 'U' && name.take(4)[2] == 'B'
            && name.take(4)[3] == 'X');
    }
    if name == seq!['.', 't', 'e', 'x', 't'] {
        assert(name[0] == '.' && name[4] == 't');
    }
}

/// A section counts as code when its header marks it executable
/// (IMAGE_SCN_MEM_EXECUTE), or by its name: `.text`, or a name starting with
/// `.UBX` (games that strip the flag).
pub open spec fn is_code_section(name: Seq<char>, characteristics: u32) -> bool {
    ||| characteristics & 0x2000_0000 != 0
    ||| name == seq!['.', 't', 'e', 'x', 't']
    ||| (name.len() >= 4 && name.take(4) == seq!['.', 'U', 'B', 'X'])
}

/// Largest number of bytes read from one section (256 MiB).
pub const MAX_SECTION_READ: usize = 0x1000_0000;

/// Size of one read of section data (64 KiB).
pub const SECTION_CHUNK: usize = 0x10000;

/// Bytes read from a section of virtual size `vsize`.
pub open spec fn section_read_len(vsize: u32) -> int {
    if vsize as int <= MAX_SECTION_READ as int {
        vsize as int
    } else {
        MAX_SECTION_READ as int
    }
}

/// `std::str::from_utf8`: the bytes as a string slice exactly when they are
/// valid UTF-8; the slice then holds the characters they encode.
#[verifier::external_body]
fn str_from_utf8(bytes: &[u8]) -> (r: Option<&str>)
    ensures
        r is Some <==> valid_utf8(bytes@),
        r matches Some(s) ==> s@ == decode_utf8(bytes@),
{
    match std::str::from_utf8(bytes) {
        Ok(s) => Some(s),
        Err(_) => None,
    }
}

/// Decode the raw name bytes of a section header.
pub fn section_name(raw: &[u8]) -> (r: String)
    ensures
        r@ == section_name_text(raw@),
{
    match str_from_utf8(raw) {
        None => {
            proof {
                reveal_strlit("????");
            }
            "????".to_owned()
        },
        Some(s) => trim_nul_string(s),
    }
}

/// Whether a section with this name and characteristics counts as code.
pub fn is_code_section_name(name: &str, characteristics: u32) -> (r: bool)
    ensures
        r == is_code_section(name@, characteristics),
{
    let chars = chars_of(name);
    let n = chars.len();
    let is_text = n == 5 && chars[0] == '.' && chars[1] == 't' && chars[2] == 'e' && chars[3] == 'x'
        && chars[4] == 't';
    let is_ubx = n >= 4 && chars[0] == '.' && chars[1] == 'U' && chars[2] == 'B' && chars[3] == 'X';
    proof {
        if n == 5 {
            assert(is_text == (name@ == seq!['.', 't', 'e', 'x', 't'])) by {
                if name@ == seq!['.', 't', 'e', 'x', 't'] {
                    assert(name@[0] == '.' && name@[1] == 't' && name@[2] == 'e' && name@[3] == 'x'
                        && name@[4] == 't');
                }
                if is_text {
                    assert(name@ =~= seq!['.', 't', 'e', 'x', 't']);
                }
            }
        } else {
            assert(name@ != seq!['.', 't', 'e', 'x', 't']);
        }
        if n >= 4 {
            assert(is_ubx == (name@.take(4) == seq!['.', 'U', 'B', 'X'])) by {
                if name@.take(4) == seq!['.', 'U', 'B', 'X'] {
                    assert(name@.take(4)[0] == '.' && name@.take(4)[1] == 'U' && name@.take(4)[2]
                        == 'B' && name@.take(4)[3] == 'X');
                }
                if is_ubx {
                    assert(name@.take(4) =~= seq!['.', 'U', 'B', 'X']);
                }
            }
        }
    }
    (characteristics & 0x2000_0000) != 0 || is_text || is_ubx
}

/// Number of bytes read from a section of virtual size `vsize`.
pub fn section_read_size(vsize: u32) -> (r: usize)
    ensures
        r == section_read_len(vsize),
{
    if vsize as usize <= MAX_SECTION_READ {
        vsize as usize
    } else {
        MAX_SECTION_READ
    }
}

/// Address of the DOS header's `e_lfanew` field (module base + 0x3C), if it
/// lies below 2^64.
pub fn lfanew_address(module_base: u64) -> (r: Option<u64>)
    ensures
        r == (if module_base + 0x3C <= u64::MAX {
            Some((module_base + 0x3C) as u64)
        } else {
            None::<u64>
        }),
{
    module_base.checked_add(0x3C)
}

/// Address of the PE signature: the module base plus `e_lfanew`, if it lies
/// below 2^64.
pub fn pe_signature_address(module_base: u64, e_lfanew: u32) -> (r: Option<u64>)
    ensures
        r == (if module_base + e_lfanew <= u64::MAX {
            Some((module_base + e_lfanew) as u64)
        } else {
            None::<u64>
        }),
{
    module_base.checked_add(e_lfanew as u64)
}

/// The PE signature `PE\0\0` as a little-endian u32.
pub const PE_SIGNATURE: u32 = 0x0000_4550;

/// Address of the COFF header, right after the signature, once the signature
/// has been read: `None` unless it is `PE\0\0` and the address lies below 2^64.
pub fn pe_coff_address(module_base: u64, e_lfanew: u32, pe_sig: u32) -> (r: Option<u64>)
    ensures
        r is Some <==> pe_sig == PE_SIGNATURE && module_base + e_lfanew + 4 <= u64::MAX,
        r matches Some(c) ==> c == module_base + e_lfanew + 4,
{
    if pe_sig != PE_SIGNATURE {
        return None;
    }
    match module_base.checked_add(e_lfanew as u64) {
        Some(pe) => pe.checked_add(4),
        None => None,
    }
}

/// Address of the section table: after the 20-byte COFF header and the
/// optional header, if it lies below 2^64.
pub fn section_table_address(coff: u64, optional_header_size: u16) -> (r: Option<u64>)
    ensures
        r == (if coff + 20 + optional_header_size <= u64::MAX {
            Some((coff + 20 + optional_header_size) as u64)
        } else {
            None::<u64>
        }),
{
    if coff > u64::MAX - 20 - optional_header_size as u64 {
        None
    } else {
        Some(coff + 20 + optional_header_size as u64)
    }
}

/// Size of one section header (IMAGE_SECTION_HEADER).
pub const SECTION_HEADER_SIZE: u64 = 40;

/// Address of the `index`-th section header, if it lies below 2^64.
pub fn section_header_address(table: u64, index: u16) -> (r: Option<u64>)
    ensures
        r == (if table + 40 * index <= u64::MAX {
            Some((table + 40 * index) as u64)
        } else {
            None::<u64>
        }),
{
    let step: u64 = SECTION_HEADER_SIZE * index as u64;
    table.checked_add(step)
}

/// What a section header yields when it describes a code section of non-zero
/// size: its name, virtual address, virtual size and the number of bytes to
/// read; `None` for any other section.
pub open spec fn section_entry_spec(
    name_raw: Seq<u8>,
    virtual_size: u32,
    virtual_address: u32,
    characteristics: u32,
) -> Option<(Seq<char>, u32, u32, int)> {
    if is_code_section(section_name_text(name_raw), characteristics) && virtual_size != 0 {
        Some(
            (
                section_name_text(name_raw),
                virtual_address,
                virtual_size,
                section_read_len(virtual_size),
            ),
        )
    } else {
        None
    }
}

/// An entry as plain values: name characters, virtual address, virtual size
/// and the number of bytes to read.
pub open spec fn entry_view(e: Option<(String, u32, u32, usize)>) -> Option<(Seq<char>, u32, u32, int)> {
    match e {
        Some(x) => Some((x.0@, x.1, x.2, x.3 as int)),
        None => None,
    }
}

/// Decide from the fields of a section header whether the section is loaded:
/// a code section of non-zero size yields its name, virtual address, virtual
/// size and the number of bytes to read.
pub fn section_entry(name_raw: &[u8], virtual_size: u32, virtual_address: u32, characteristics: u32) -> (r: Option<(String, u32, u32, usize)>)
    ensures
        entry_view(r) == section_entry_spec(name_raw@, virtual_size, virtual_address, characteristics),
{
    let name = section_name(name_raw);
    if !is_code_section_name(name.as_str(), characteristics) || virtual_size == 0 {
        return None;
    }
    let size = section_read_size(virtual_size);
    Some((name, virtual_address, virtual_size, size))
}

/// The raw bytes of a read, when it succeeded.
pub open spec fn read_bytes_view(o: Option<&[u8]>) -> Option<Seq<u8>> {
    match o {
        Some(b) => Some(b@),
        None => None,
    }
}

/// What a section header yields from the results of its four reads (the 8
/// name bytes, the virtual size, the virtual address, the characteristics),
/// each `None` when its read failed or was not made: nothing when any of them
/// failed, else what `section_entry_spec` yields for the fields.
pub open spec fn header_entry_spec(
    name_raw: Option<Seq<u8>>,
    virtual_size: Option<u32>,
    virtual_address: Option<u32>,
    characteristics: Option<u32>,
) -> Option<(Seq<char>, u32, u32, int)> {
    match (name_raw, virtual_size, virtual_address, characteristics) {
        (Some(n), Some(vs), Some(va), Some(c)) => section_entry_spec(n, vs, va, c),
        _ => None,
    }
}

/// Decide from the reads of a section header whether the section is loaded:
/// a header whose name or field read failed is skipped, any other goes to
/// `section_entry`.
pub fn header_entry(
    name_raw: Option<&[u8]>,
    virtual_size: Option<u32>,
    virtual_address: Option<u32>,
    characteristics: Option<u32>,
) -> (r: Option<(String, u32, u32, usize)>)
    ensures
        entry_view(r) == header_entry_spec(
            read_bytes_view(name_raw),
            virtual_size,
            virtual_address,
            characteristics,
        ),
{
    match (name_raw, virtual_size, virtual_address, characteristics) {
        (Some(n), Some(vs), Some(va), Some(c)) => section_entry(n, vs, va, c),
        _ => None,
    }
}

/// Address and length of the chunk read at offset `off` of a section at
/// `section_va` with `size` bytes to read: chunks are 64 KiB, the last one
/// shorter. `None` when the address passes 2^64.
pub fn section_chunk(section_va: u64, size: usize, off: usize) -> (r: Option<(u64, usize)>)
    requires
        off < size,
    ensures
        r == (if section_va + off <= u64::MAX {
            Some(
                (
                    (section_va + off) as u64,
                    (if size - off < SECTION_CHUNK { (size - off) as usize } else { SECTION_CHUNK }),
                ),
            )
        } else {
            None::<(u64, usize)>
        }),
{
    let len = if size - off < SECTION_CHUNK {
        size - off
    } else {
        SECTION_CHUNK
    };
    match section_va.checked_add(off as u64) {
        Some(addr) => Some((addr, len)),
        None => None,
    }
}

/// Number of chunk reads for `size` bytes of section data.
pub open spec fn chunk_count(size: int) -> int {
    (size + 0xFFFF) / 0x10000
}

/// Offset of the last chunk of `size` bytes of section data.
pub open spec fn last_chunk_start(size: int) -> int {
    (chunk_count(size) - 1) * 0x10000
}

/// Facts about consecutive chunks: after a chunk that starts at a multiple of
/// 64 KiB and holds `len` bytes, one more chunk has been read, and it is the
/// last one read so far.
proof fn lemma_next_chunk(off: int, len: int)
    requires
        off >= 0,
        off % 0x10000 == 0,
        1 <= len <= 0x10000,
    ensures
        chunk_count(off + len) == chunk_count(off) + 1,
        chunk_count(off) == off / 0x10000,
        last_chunk_start(off + len) == off,
        len == 0x10000 ==> (off + len) % 0x10000 == 0,
{
    assert((off + 0xFFFF) / 0x10000 == off / 0x10000) by (nonlinear_arith)
        requires
            off % 0x10000 == 0,
            off >= 0,
    ;
    assert((off + len + 0xFFFF) / 0x10000 == off / 0x10000 + 1) by (nonlinear_arith)
        requires
            off % 0x10000 == 0,
            off >= 0,
            1 <= len <= 0x10000,
    ;
    assert((off + 0x10000) % 0x10000 == 0) by (nonlinear_arith)
        requires
            off % 0x10000 == 0,
            off >= 0,
    ;
}

/// A chunk that starts before the end of the data starts at or before the
/// last chunk.
proof fn lemma_chunk_before_last(off: int, size: int)
    requires
        0 <= off < size,
        off % 0x10000 == 0,
    ensures
        off <= last_chunk_start(size),
{
    assert(off <= ((size + 0xFFFF) / 0x10000 - 1) * 0x10000) by (nonlinear_arith)
        requires
            0 <= off < size,
            off % 0x10000 == 0,
    ;
}

/// The result of one chunk read of section data: whether the read
/// succeeded, and the buffer it was made into.
pub struct ChunkRead {
    pub ok: bool,
    pub bytes: Vec<u8>,
}

/// The bytes a chunk contributes to the section data: what was read when the
/// read succeeded, zeros of the same length when it failed.
pub open spec fn chunk_bytes(c: ChunkRead) -> Seq<u8> {
    if c.ok {
        c.bytes@
    } else {
        Seq::new(c.bytes@.len(), |i: int| 0u8)
    }
}

/// Section data assembled from its chunk reads, in order.
pub open spec fn assembled(cs: Seq<ChunkRead>) -> Seq<u8>
    decreases cs.len(),
{
    if cs.len() == 0 {
        seq![]
    } else {
        assembled(cs.drop_last()) + chunk_bytes(cs.last())
    }
}

/// At least one of the chunk reads succeeded.
pub open spec fn any_chunk_ok(cs: Seq<ChunkRead>) -> bool {
    exists|i: int| 0 <= i < cs.len() && #[trigger] cs[i].ok
}

/// Append a chunk to section data: the bytes read when the read succeeded,
/// zeros when it failed.
pub fn place_chunk(data: &mut Vec<u8>, chunk: &ChunkRead)
    ensures
        final(data)@ == old(data)@ + chunk_bytes(*chunk),
        final(data)@.len() == old(data)@.len() + chunk.bytes@.len(),
        final(data)@.subrange(0, old(data)@.len() as int) == old(data)@,
        forall|j: int|
            0 <= j < chunk.bytes@.len() ==> #[trigger] final(data)@[old(data)@.len() + j] == if chunk.ok {
                chunk.bytes@[j]
            } else {
                0u8
            },
{
    let ghost start = data@;
    let n = chunk.bytes.len();
    let mut j: usize = 0;
    while j < n
        invariant
            j <= n,
            n == chunk.bytes@.len(),
            data@ == start + chunk_bytes(*chunk).take(j as int),
        decreases n - j,
    {
        if chunk.ok {
            data.push(chunk.bytes[j]);
        } else {
            data.push(0u8);
        }
        assert(chunk_bytes(*chunk).take(j + 1) =~= chunk_bytes(*chunk).take(j as int).push(
            chunk_bytes(*chunk)[j as int],
        ));
        j = j + 1;
    }
    assert(chunk_bytes(*chunk).take(n as int) =~= chunk_bytes(*chunk));
    assert(data@.subrange(0, start.len() as int) =~= start);
}

/// Read `size` bytes of a section at `section_va` in 64 KiB chunks, the last
/// one shorter, each into a zeroed buffer of its length. `None` when a chunk
/// address passes 2^64.
///
/// Which reads succeed and what they leave in their buffers is up to the
/// reader; `assembled` says what the section data is made of them.
pub fn read_section_chunks(reader: &dyn MemoryRead, section_va: u64, size: usize) -> (r: Option<
    Vec<ChunkRead>,
>)
    ensures
        r is None <==> size > 0 && section_va + last_chunk_start(size as int) > u64::MAX,
        r matches Some(cs) ==> {
            &&& cs@.len() == chunk_count(size as int)
            &&& assembled(cs@).len() == size
            &&& forall|c: int|
                0 <= c < cs@.len() ==> (#[trigger] cs@[c]).bytes@.len() == (if size - c * 0x10000
                    < 0x10000 {
                    size - c * 0x10000
                } else {
                    0x10000
                })
        },
{
    let mut chunks: Vec<ChunkRead> = Vec::new();
    let mut off: usize = 0;
    assert(chunk_count(0) == 0);
    while off < size
        invariant
            off <= size,
            off < size ==> off % 0x10000 == 0,
            chunks@.len() == chunk_count(off as int),
            assembled(chunks@).len() == off,
            off > 0 ==> section_va + last_chunk_start(off as int) <= u64::MAX,
            off < size ==> off == chunks@.len() * 0x10000,
            forall|c: int|
                0 <= c < chunks@.len() ==> (#[trigger] chunks@[c]).bytes@.len() == (if size - c
                    * 0x10000 < 0x10000 {
                    size - c * 0x10000
                } else {
                    0x10000
                }),
        decreases size - off,
    {
        let (addr, len) = match section_chunk(section_va, size, off) {
            Some(c) => c,
            None => {
                proof {
                    lemma_chunk_before_last(off as int, size as int);
                }
                return None;
            },
        };
        proof {
            lemma_next_chunk(off as int, len as int);
        }
        let mut buf: Vec<u8> = vec![0u8; len];
        let ok = reader.read_bytes(addr, buf.as_mut_slice());
        let ghost before = chunks@;
        chunks.push(ChunkRead { ok, bytes: buf });
        assert(chunks@.drop_last() =~= before);
        off = off + len;
    }
    proof {
        if size > 0 {
            assert(section_va + last_chunk_start(size as int) <= u64::MAX);
        }
    }
    Some(chunks)
}

/// The reads made for one section header: its name bytes, virtual size,
/// virtual address and characteristics, each `None` when its read failed or
/// was not made, and the chunk reads of its data, made only for a section
/// that `header_entry` loads.
pub struct HeaderReads {
    pub name: Option<Vec<u8>>,
    pub virtual_size: Option<u32>,
    pub virtual_address: Option<u32>,
    pub characteristics: Option<u32>,
    pub chunks: Vec<ChunkRead>,
}

/// The name bytes of a header, when they were read.
pub open spec fn name_view(name: Option<Vec<u8>>) -> Option<Seq<u8>> {
    match name {
        Some(n) => Some(n@),
        None => None,
    }
}

/// What `header_entry` yields for the reads of a header.
pub open spec fn header_reads_entry(h: HeaderReads) -> Option<(Seq<char>, u32, u32, int)> {
    header_entry_spec(name_view(h.name), h.virtual_size, h.virtual_address, h.characteristics)
}

/// A section as plain values: name, virtual address, virtual size, data.
pub open spec fn section_view(s: SectionInfo) -> (Seq<char>, u32, u32, Seq<u8>) {
    (s.name@, s.virtual_address, s.virtual_size, s.data@)
}

/// The section kept for one header: the entry `header_entry` yields, with the
/// data assembled from its chunk reads, provided at least one of them
/// succeeded; nothing otherwise.
pub open spec fn kept_section(h: HeaderReads) -> Option<(Seq<char>, u32, u32, Seq<u8>)> {
    match header_reads_entry(h) {
        Some(e) => if any_chunk_ok(h.chunks@) {
            Some((e.0, e.1, e.2, assembled(h.chunks@)))
        } else {
            None
        },
        None => None,
    }
}

/// The sections kept for a run of headers, in table order.
pub open spec fn kept_sections(hs: Seq<HeaderReads>) -> Seq<(Seq<char>, u32, u32, Seq<u8>)>
    decreases hs.len(),
{
    if hs.len() == 0 {
        seq![]
    } else {
        kept_sections(hs.drop_last()) + match kept_section(hs.last()) {
            Some(s) => seq![s],
            None => seq![],
        }
    }
}

/// Law: a header is kept exactly when `header_entry` loads it and at least
/// one of its chunk reads succeeded; its data is then the chunks in order,
/// each as read when its read succeeded and zeros when it failed.
pub proof fn lemma_kept_iff_some_chunk_read(h: HeaderReads)
    ensures
        kept_section(h) is Some <==> header_reads_entry(h) is Some && exists|i: int|
            0 <= i < h.chunks@.len() && #[trigger] h.chunks@[i].ok,
        kept_section(h) matches Some(s) ==> {
            let e = header_reads_entry(h)->0;
            &&& (s.0, s.1, s.2) == (e.0, e.1, e.2)
            &&& s.3 == assembled(h.chunks@)
        },
{
}

/// Law: the data assembled from chunk reads is their bytes laid end to end,
/// each chunk's bytes as read when its read succeeded and zeros when it
/// failed: appending one more chunk appends exactly its contribution.
pub proof fn lemma_assembled_push(cs: Seq<ChunkRead>, c: ChunkRead)
    ensures
        assembled(cs.push(c)) == assembled(cs) + (if c.ok {
            c.bytes@
        } else {
            Seq::new(c.bytes@.len(), |i: int| 0u8)
        }),
{
    assert(cs.push(c).drop_last() =~= cs);
}

/// The section kept for the reads of one header, as `kept_section` says.
pub fn section_from_reads(h: &HeaderReads) -> (r: Option<SectionInfo>)
    ensures
        match r {
            Some(s) => kept_section(*h) == Some(section_view(s)),
            None => kept_section(*h) is None,
        },
        r is Some <==> header_reads_entry(*h) is Some && exists|i: int|
            0 <= i < h.chunks@.len() && #[trigger] h.chunks@[i].ok,
{
    let name_raw: Option<&[u8]> = match &h.name {
        Some(n) => Some(n.as_slice()),
        None => None,
    };
    assert(read_bytes_view(name_raw) == name_view(h.name));
    let entry = header_entry(name_raw, h.virtual_size, h.virtual_address, h.characteristics);
    let (name, virtual_address, virtual_size, _size) = match entry {
        Some(e) => e,
        None => return None,
    };
    let n = h.chunks.len();
    let mut any = false;
    let mut k: usize = 0;
    while k < n
        invariant
            k <= n,
            n == h.chunks@.len(),
            any == exists|i: int| 0 <= i < k && #[trigger] h.chunks@[i].ok,
        decreases n - k,
    {
        any = any || h.chunks[k].ok;
        k = k + 1;
    }
    if !any {
        return None;
    }
    let mut data: Vec<u8> = Vec::new();
    let mut k: usize = 0;
    assert(h.chunks@.take(0) =~= Seq::<ChunkRead>::empty());
    while k < n
        invariant
            k <= n,
            n == h.chunks@.len(),
            data@ == assembled(h.chunks@.take(k as int)),
        decreases n - k,
    {
        place_chunk(&mut data, &h.chunks[k]);
        assert(h.chunks@.take(k + 1).drop_last() =~= h.chunks@.take(k as int));
        k = k + 1;
    }
    assert(h.chunks@.take(n as int) =~= h.chunks@);
    Some(SectionInfo { name, virtual_address, virtual_size, data })
}

/// The sections kept for a run of header reads, in table order.
pub fn sections_from_reads(headers: &[HeaderReads]) -> (r: Vec<SectionInfo>)
    ensures
        r@.map_values(|s: SectionInfo| section_view(s)) == kept_sections(headers@),
{
    let mut out: Vec<SectionInfo> = Vec::new();
    let n = headers.len();
    let mut k: usize = 0;
    assert(headers@.take(0) =~= Seq::<HeaderReads>::empty());
    assert(out@.map_values(|s: SectionInfo| section_view(s)) =~= kept_sections(headers@.take(0)));
    while k < n
        invariant
            k <= n,
            n == headers@.len(),
            out@.map_values(|s: SectionInfo| section_view(s)) == kept_sections(
                headers@.take(k as int),
            ),
        decreases n - k,
    {
        let ghost before = out@;
        assert(headers@.take(k + 1).drop_last() =~= headers@.take(k as int));
        assert(headers@.take(k + 1).last() == headers@[k as int]);
        match section_from_reads(&headers[k]) {
            Some(sec) => {
                out.push(sec);
                assert(out@.map_values(|s: SectionInfo| section_view(s)) =~= before.map_values(
                    |s: SectionInfo| section_view(s),
                ).push(section_view(sec)));
            },
            None => {},
        }
        k = k + 1;
    }
    assert(headers@.take(n as int) =~= headers@);
    out
}

/// The reads of a header agree with what was done with them: name bytes are 8
/// long, a loaded section's chunk reads cover its capped size, and no data is
/// read for any other header.
pub open spec fn header_reads_complete(h: HeaderReads) -> bool {
    &&& h.name matches Some(n) ==> n@.len() == 8
    &&& match header_reads_entry(h) {
        Some(e) => assembled(h.chunks@).len() == e.3,
        None => h.chunks@.len() == 0,
    }
}

/// Read the `count` section headers of the table at `table` and the data of
/// each section that `header_entry` loads. Each read of a header is made only
/// when the ones before it succeeded. `None` when a header, section or chunk
/// address passes 2^64.
pub fn read_section_headers(reader: &dyn MemoryRead, module_base: u64, table: u64, count: u16) -> (r: Option<
    Vec<HeaderReads>,
>)
    ensures
        r matches Some(hs) ==> {
            &&& hs@.len() == count
            &&& forall|k: int| 0 <= k < hs@.len() ==> header_reads_complete(#[trigger] hs@[k])
        },
{
    let mut headers: Vec<HeaderReads> = Vec::new();
    let mut i: u16 = 0;
    while i < count
        invariant
            i <= count,
            headers@.len() == i,
            forall|k: int| 0 <= k < headers@.len() ==> header_reads_complete(#[trigger] headers@[k]),
        decreases count - i,
    {
        let sh = section_header_address(table, i)?;
        i = i + 1;
        let mut name_buf: Vec<u8> = vec![0u8; 8];
        let name_ok = reader.read_bytes(sh, name_buf.as_mut_slice());
        let virtual_size = if name_ok {
            read_u32(reader, sh.checked_add(8)?, &mut [0u8; 4])
        } else {
            None
        };
        let virtual_address = if virtual_size.is_some() {
            read_u32(reader, sh.checked_add(12)?, &mut [0u8; 4])
        } else {
            None
        };
        let characteristics = if virtual_address.is_some() {
            read_u32(reader, sh.checked_add(36)?, &mut [0u8; 4])
        } else {
            None
        };
        let name: Option<Vec<u8>> = if name_ok {
            Some(name_buf)
        } else {
            None
        };
        let name_raw: Option<&[u8]> = match &name {
            Some(n) => Some(n.as_slice()),
            None => None,
        };
        assert(read_bytes_view(name_raw) == name_view(name));
        let chunks = match header_entry(name_raw, virtual_size, virtual_address, characteristics) {
            Some((_, va, _, read_size)) => {
                let section_va = module_base.checked_add(va as u64)?;
                read_section_chunks(reader, section_va, read_size)?
            },
            None => Vec::new(),
        };
        let h = HeaderReads { name, virtual_size, virtual_address, characteristics, chunks };
        assert(header_reads_complete(h));
        headers.push(h);
    }
    Some(headers)
}

/// What from_remote keeps of a section, whatever the reader returned: a
/// section of non-empty virtual size whose name is decoded from 8 raw name
/// bytes and whose data has the capped size.
pub open spec fn is_loaded_section(sec: SectionInfo) -> bool {
    &&& sec.virtual_size != 0
    &&& sec.data@.len() == section_read_len(sec.virtual_size)
    &&& exists|raw: Seq<u8>| raw.len() == 8 && #[trigger] section_name_text(raw) == sec.name@
}

/// Every section kept for complete header reads is loaded as
/// `is_loaded_section` says.
proof fn lemma_kept_sections_loaded(hs: Seq<HeaderReads>)
    requires
        forall|k: int| 0 <= k < hs.len() ==> header_reads_complete(#[trigger] hs[k]),
    ensures
        forall|k: int|
            0 <= k < kept_sections(hs).len() ==> ({
                let s = #[trigger] kept_sections(hs)[k];
                &&& s.2 != 0
                &&& s.3.len() == section_read_len(s.2)
                &&& exists|raw: Seq<u8>| raw.len() == 8 && #[trigger] section_name_text(raw) == s.0
            }),
    decreases hs.len(),
{
    if hs.len() > 0 {
        let init = hs.drop_last();
        let h = hs.last();
        assert(header_reads_complete(hs[hs.len() - 1]));
        assert forall|k: int| 0 <= k < init.len() implies header_reads_complete(#[trigger] init[k]) by {
            assert(init[k] == hs[k]);
        }
        lemma_kept_sections_loaded(init);
        let a = kept_sections(init);
        assert forall|k: int| 0 <= k < kept_sections(hs).len() implies ({
            let s = #[trigger] kept_sections(hs)[k];
            &&& s.2 != 0
            &&& s.3.len() == section_read_len(s.2)
            &&& exists|raw: Seq<u8>| raw.len() == 8 && #[trigger] section_name_text(raw) == s.0
        }) by {
            if k < a.len() {
                assert(kept_sections(hs)[k] == a[k]);
            } else {
                let s = kept_section(h)->0;
                assert(kept_sections(hs)[k] == s);
                let n = h.name->0@;
                assert(section_name_text(n) == s.0);
            }
        }
    }
}

/// The sections are those kept, in table order, for some complete reads of
/// at most 2^16 - 1 section headers.
pub open spec fn kept_from_some_reads(sections: Seq<SectionInfo>) -> bool {
    exists|hs: Seq<HeaderReads>|
        #![trigger kept_sections(hs)]
        hs.len() <= u16::MAX && (forall|k: int|
            0 <= k < hs.len() ==> header_reads_complete(#[trigger] hs[k]))
            && sections.map_values(|s: SectionInfo| section_view(s)) == kept_sections(hs)
}

/// No more sections are kept than there are headers.
proof fn lemma_kept_sections_len(hs: Seq<HeaderReads>)
    ensures
        kept_sections(hs).len() <= hs.len(),
    decreases hs.len(),
{
    if hs.len() > 0 {
        lemma_kept_sections_len(hs.drop_last());
    }
}

impl ProcessImage {
    /// Parse PE headers from a remote process and read all executable sections
    /// into local memory for pattern scanning.
    ///
    /// The reads decide the outcome, through `u32_from_read` and `u16_from_read`
    /// for the headers (a failed read gives `None`), `pe_coff_address` for the
    /// signature, and `read_section_headers` for the section table; the
    /// sections kept are then `sections_from_reads` of those reads: in table
    /// order, each header that `header_entry` loads and of whose chunks at
    /// least one was read, with its data assembled by `place_chunk`. `None`
    /// also stands for a header, section or chunk address that passes 2^64.
    pub fn from_remote(reader: &dyn MemoryRead, module_base: u64) -> (r: Option<Self>)
        ensures
            module_base + 0x3C > u64::MAX ==> r is None,
            r matches Some(img) ==> {
                &&& img.base == module_base
                &&& img.sections@.len() <= u16::MAX
                &&& kept_from_some_reads(img.sections@)
                &&& forall|k: int|
                    0 <= k < img.sections@.len() ==> is_loaded_section(#[trigger] img.sections@[k])
            },
    {
        // DOS header: offset of the PE signature
        let lfanew_at = lfanew_address(module_base)?;
        let e_lfanew = read_u32(reader, lfanew_at, &mut [0u8; 4])?;
        let pe_offset = pe_signature_address(module_base, e_lfanew)?;
        let pe_sig = read_u32(reader, pe_offset, &mut [0u8; 4])?;
        // COFF header follows the signature "PE\0\0"
        let coff = pe_coff_address(module_base, e_lfanew, pe_sig)?;
        let num_sections = read_u16(reader, coff.checked_add(2)?, &mut [0u8; 2])?;
        let optional_header_size = read_u16(reader, coff.checked_add(16)?, &mut [0u8; 2])?;
        // Section headers start right after the optional header
        let section_table = section_table_address(coff, optional_header_size)?;
        let headers = read_section_headers(reader, module_base, section_table, num_sections)?;
        let sections = sections_from_reads(&headers);
        proof {
            lemma_kept_sections_loaded(headers@);
            assert forall|k: int| 0 <= k < sections@.len() implies is_loaded_section(
                #[trigger] sections@[k],
            ) by {
                let views = sections@.map_values(|s: SectionInfo| section_view(s));
                assert(views[k] == section_view(sections@[k]));
                let v = kept_sections(headers@)[k];
                assert(exists|raw: Seq<u8>| raw.len() == 8 && #[trigger] section_name_text(raw) == v.0);
            }
            lemma_kept_sections_len(headers@);
            assert(kept_from_some_reads(sections@));
        }
        Some(ProcessImage { base: module_base, sections })
    }

    /// Whether every section's local bytes lie at virtual addresses below
    /// 2^64, as the scans ask.
    pub fn fits_address_space(&self) -> (r: bool)
        ensures
            r == self.wf(),
    {
        let mut k: usize = 0;
        while k < self.sections.len()
            invariant
                k <= self.sections@.len(),
                forall|m: int|
                    0 <= m < k ==> section_start(self.base, #[trigger] self.sections@[m])
                        + self.sections@[m].data@.len() <= u64::MAX,
            decreases self.sections@.len() - k,
        {
            let sec = &self.sections[k];
            let end: u128 = self.base as u128 + sec.virtual_address as u128 + sec.data.len() as u128;
            if end > u64::MAX as u128 {
                return false;
            }
            k = k + 1;
        }
        true
    }
}

// ── Resolution strategies ───────────────────────────────────────────────────

/// How to turn a raw pattern-match VA into the final target address.
pub enum Resolve {
    /// The match address itself is the answer (e.g. a function entry point).
    Direct,
    /// RIP-relative: read a 4-byte signed displacement at `match + disp_offset`,
    /// then compute `match + instr_len + disp`.
    RipRel { disp_offset: u32, instr_len: u32 },
    /// Read a raw little-endian u32 at `match + offset` (e.g. a struct-field
    /// offset embedded as an immediate in the instruction stream).
    ReadU32 { offset: u32 },
    /// Add a signed delta to the match VA (e.g. pattern matches inside a
    /// function body and `delta` backs up to the true entry point).
    Offset { delta: i32 },
}

/// The unsigned 32-bit value with the same four little-endian bytes as `v`.
pub open spec fn raw_u32(v: i32) -> int {
    if v < 0 {
        v + 0x1_0000_0000
    } else {
        v as int
    }
}

impl Resolve {
    /// Offset from the match of the 4 bytes that the strategy reads, if it reads any.
    pub open spec fn read_offset(self) -> Option<u32> {
        match self {
            Resolve::RipRel { disp_offset, .. } => Some(disp_offset),
            Resolve::ReadU32 { offset } => Some(offset),
            _ => None,
        }
    }

    /// The address arithmetic of the strategy stays below 2^64 for a match at `m`.
    pub open spec fn fits(self, m: u64) -> bool {
        match self {
            Resolve::RipRel { disp_offset, instr_len } => m + disp_offset <= u64::MAX && m
                + instr_len <= u64::MAX,
            Resolve::ReadU32 { offset } => m + offset <= u64::MAX,
            _ => true,
        }
    }

    /// The resolved address for a match at `m`, given the 4-byte value read
    /// for the strategies that read one.
    pub open spec fn target(self, m: u64, value: Option<i32>) -> Option<u64> {
        match self {
            Resolve::Direct => Some(m),
            Resolve::RipRel { instr_len, .. } => match value {
                Some(d) => Some(wrap_u64(m + instr_len + d)),
                None => None,
            },
            Resolve::ReadU32 { .. } => match value {
                Some(v) => Some(raw_u32(v) as u64),
                None => None,
            },
            Resolve::Offset { delta } => Some(wrap_u64(m + delta)),
        }
    }

    /// Address of the 4 bytes that the strategy reads for a match at `match_va`.
    pub fn read_address(&self, match_va: u64) -> (r: Option<u64>)
        requires
            self.fits(match_va),
        ensures
            match self.read_offset() {
                Some(off) => r == Some((match_va + off) as u64),
                None => r is None,
            },
    {
        match self {
            Resolve::RipRel { disp_offset, .. } => Some(match_va + *disp_offset as u64),
            Resolve::ReadU32 { offset } => Some(match_va + *offset as u64),
            _ => None,
        }
    }

    /// Apply the strategy to a match at `match_va`; `value` is the 4-byte value
    /// read at `read_address`, for the strategies that read one.
    pub fn apply(&self, match_va: u64, value: Option<i32>) -> (r: Option<u64>)
        requires
            self.fits(match_va),
        ensures
            r == self.target(match_va, value),
    {
        match self {
            Resolve::Direct => Some(match_va),
            Resolve::RipRel { instr_len, .. } => match value {
                Some(disp) => Some((match_va + *instr_len as u64).wrapping_add_signed(disp as i64)),
                None => None,
            },
            Resolve::ReadU32 { .. } => match value {
                Some(v) => Some(
                    if v < 0 {
                        (v as i64 + 0x1_0000_0000) as u64
                    } else {
                        v as u64
                    },
                ),
                None => None,
            },
            Resolve::Offset { delta } => Some(match_va.wrapping_add_signed(*delta as i64)),
        }
    }
}

/// Law: `Direct` and `Offset` read nothing: they always resolve, to the match
/// itself or the match moved by the delta (wrapping), whatever value is
/// supplied.
pub proof fn lemma_non_reading_strategies(resolve: Resolve, m: u64, v1: Option<i32>, v2: Option<i32>)
    requires
        resolve.read_offset() is None,
    ensures
        resolve.target(m, v1) == resolve.target(m, v2),
        resolve.target(m, v1) == Some(
            match resolve {
                Resolve::Offset { delta } => wrap_u64(m + delta),
                _ => m,
            },
        ),
{
}

// ── Scan result ─────────────────────────────────────────────────────────────

pub struct ScanResult {
    /// Virtual address where the pattern matched.
    pub match_va: u64,
    /// Virtual address after applying the resolution strategy.
    pub resolved_va: u64,
    /// RVA of the match (match_va - module_base).
    pub match_rva: u32,
    /// RVA of the resolved address (resolved_va - module_base).
    pub resolved_rva: u32,
}

/// The scan result for a match at `m` resolved to `resolved` in an image at `base`;
/// RVAs keep the low 32 bits of the (wrapping) distance from the base.
pub open spec fn scan_result(base: u64, m: u64, resolved: u64) -> ScanResult {
    ScanResult {
        match_va: m,
        resolved_va: resolved,
        match_rva: (m - base) as u32,
        resolved_rva: wrap_u64(resolved - base) as u32,
    }
}

/// Law: a scan result records the match and the resolved address as given,
/// and their RVAs as their distances from the image base: the match's
/// truncated to 32 bits, the resolved address's taken modulo 2^64 and then
/// truncated.
pub proof fn lemma_scan_result_rvas(base: u64, m: u64, resolved: u64)
    requires
        base <= m,
    ensures
        scan_result(base, m, resolved).match_va == m,
        scan_result(base, m, resolved).resolved_va == resolved,
        scan_result(base, m, resolved).match_rva == (m - base) as u32,
        scan_result(base, m, resolved).resolved_rva == wrap_u64(resolved - base) as u32,
{
}

// ── Signature entry ─────────────────────────────────────────────────────────

/// A named signature with its resolution strategy.
pub struct SigEntry {
    pub name: &'static str,
    pub pattern: &'static str,
    pub resolve: Resolve,
}

impl SigEntry {
    /// Address of the first match of the signature's pattern in the image.
    pub open spec fn first_match_va(self, image: ProcessImage) -> Option<u64> {
        let all = image_match_vas(pattern_from_text(self.pattern@), image.base, image.sections@);
        if all.len() == 0 {
            None
        } else {
            Some(all[0])
        }
    }

    /// The value read locally for a match at `m`: the image's own section data.
    pub open spec fn local_value(self, image: ProcessImage, m: u64) -> Option<i32> {
        match self.resolve.read_offset() {
            Some(off) => match local_i32(image, m + off) {
                Some(v) => Some(v as i32),
                None => None,
            },
            None => None,
        }
    }

    /// Scan the image for this signature and resolve the target address.
    ///
    /// A value that is not in the image's local section data is read through
    /// `reader`; what it returns is then not known here.
    pub fn scan_and_resolve(&self, image: &ProcessImage, reader: &dyn MemoryRead) -> (r: Option<
        ScanResult,
    >)
        requires
            image.wf(),
            is_valid_pattern_text(self.pattern@),
            self.first_match_va(*image) matches Some(m) ==> self.resolve.fits(m),
        ensures
            match self.first_match_va(*image) {
                None => r is None,
                Some(m) => {
                    &&& (self.resolve.read_offset() is None || self.local_value(*image, m) is Some)
                        ==> r == Some(
                        scan_result(
                            image.base,
                            m,
                            self.resolve.target(m, self.local_value(*image, m))->0,
                        ),
                    )
                    &&& r matches Some(res) ==> exists|v: Option<i32>|
                        #[trigger] self.resolve.target(m, v) == Some(res.resolved_va) && res
                            == scan_result(image.base, m, res.resolved_va)
                },
            },
            r matches Some(res) ==> {
                &&& self.first_match_va(*image) == Some(res.match_va)
                &&& image.base <= res.match_va
                &&& res.match_rva == (res.match_va - image.base) as u32
                &&& res.resolved_rva == wrap_u64(res.resolved_va - image.base) as u32
            },
    {
        let pat = Pattern::parse(self.pattern);
        proof {
            lemma_image_match_vas_bounds(pat@, image.base, image.sections@);
            lemma_wf_matches_fit(*image, pat@);
        }
        let match_va = pat.scan_process_image(image)?;
        let value = match self.resolve.read_address(match_va) {
            Some(addr) => match image.read_i32_local(addr) {
                Some(v) => Some(v),
                None => read_i32(reader, addr, &mut [0u8; 4]),
            },
            None => None,
        };
        let resolved_va = self.resolve.apply(match_va, value)?;
        Some(
            ScanResult {
                match_va,
                resolved_va,
                match_rva: (match_va - image.base) as u32,
                resolved_rva: resolved_va.wrapping_sub(image.base) as u32,
            },
        )
    }
}

} // verus!
