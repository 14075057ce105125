# gowr_noclip

A no-clip movement tool for *God of War: Ragnarok* (PC) with a verified core.

- `src/` is the library, verified with Verus:
  - `pattern` — array-of-bytes patterns: IDA-style text (parse / print, read back
    exactly), scanning byte buffers, generating patterns that wildcard RIP-relative
    and call/jmp displacements.
  - `sigscanner` — a PE image read from another process through the `MemoryRead`
    trait, scanning it for patterns and RIP-relative cross-references, and
    resolving signature matches to target addresses.
  - `pe_file` — the section table of a PE file on disk and the globals that code
    loads next to accesses of a given field.
  - `memory_mappings`, `memory_resolver` — the game's globals and offsets, pointer
    chain walks fed one read at a time, and assembling reads from 64-bit words.
  - `controls` — the input toggle, movement from held keys, the gravity lock and
    console commands.
- `app/` is the program: process access through libmem, keyboard polling through
  device_query, console I/O, and the floating-point position updates.
- `tests/` exercises the library on concrete inputs.
