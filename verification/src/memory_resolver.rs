//! Where the player state lives: the mapping of globals, walking pointer
//! chains from them, and assembling memory reads word by word.
use vstd::prelude::*;
use crate::memory_mappings;

verus! {

/// RVAs of the globals that lead to the player's transform and direction.
#[derive(Debug, Clone, Copy)]
pub struct GameMappings {
    pub transform_global_rva: usize,
    pub directional_global_rva: usize,
}

impl GameMappings {
    /// The layout of the current game build.
    pub fn current_layout() -> (r: GameMappings)
        ensures
            r.transform_global_rva == memory_mappings::TRANSFORM_GLOBAL,
            r.directional_global_rva == memory_mappings::DIRECTIONAL_GLOBAL,
    {
        GameMappings {
            transform_global_rva: memory_mappings::TRANSFORM_GLOBAL,
            directional_global_rva: memory_mappings::DIRECTIONAL_GLOBAL,
        }
    }
}

// ── Pointer chains ──────────────────────────────────────────────────────────

/// Pointers below this value are null or otherwise not live objects.
pub const MIN_VALID_POINTER: usize = 0x10000;

/// Where a walk along a pointer chain from `start` stands after the reads
/// fed so far (`None` for a failed read): each link reads a pointer at the
/// current address, fails on a failed read or a pointer below 0x10000, and
/// otherwise moves to the pointer plus the link's offset. `None` once a link
/// has failed.
pub open spec fn chain_walk(start: int, offsets: Seq<usize>, reads: Seq<Option<usize>>) -> Option<int>
    decreases reads.len(),
{
    if reads.len() == 0 {
        Some(start)
    } else {
        match chain_walk(start, offsets, reads.drop_last()) {
            None => None,
            Some(_) => match reads.last() {
                None => None,
                Some(p) => if p < MIN_VALID_POINTER {
                    None
                } else {
                    Some(p + offsets[reads.len() - 1])
                },
            },
        }
    }
}

/// Law: once a link of a chain has failed, no later read revives the walk.
pub proof fn lemma_failed_chain_stays_failed(
    start: int,
    offsets: Seq<usize>,
    reads: Seq<Option<usize>>,
    later: Seq<Option<usize>>,
)
    requires
        chain_walk(start, offsets, reads) is None,
    ensures
        chain_walk(start, offsets, reads + later) is None,
    decreases later.len(),
{
    if later.len() == 0 {
        assert(reads + later =~= reads);
    } else {
        lemma_failed_chain_stays_failed(start, offsets, reads, later.drop_last());
        assert((reads + later).drop_last() =~= reads + later.drop_last());
    }
}

/// The next thing a chain walk needs.
pub enum ChainStep {
    /// Read a pointer at this address and feed it back.
    Read(usize),
    /// The walk is over: the final address, or `None` when a link failed.
    Done(Option<usize>),
}

/// A walk along a pointer chain, fed one pointer read at a time.
pub struct ChainWalk {
    start: usize,
    offsets: Vec<usize>,
    addr: usize,
    next: usize,
    failed: bool,
    reads: Ghost<Seq<Option<usize>>>,
}

impl ChainWalk {
    /// Address where the walk began.
    pub closed spec fn start(&self) -> int {
        self.start as int
    }

    /// The chain's offsets.
    pub closed spec fn offsets(&self) -> Seq<usize> {
        self.offsets@
    }

    /// What the reads fed so far returned.
    pub closed spec fn reads(&self) -> Seq<Option<usize>> {
        self.reads@
    }

    /// Where the walk stands after the reads fed so far.
    pub open spec fn position(&self) -> Option<int> {
        chain_walk(self.start(), self.offsets(), self.reads())
    }

    /// The walk still needs a read: no link has failed and links remain.
    pub open spec fn pending(&self) -> bool {
        self.position() is Some && self.reads().len() < self.offsets().len()
    }

    /// Offset of the link whose pointer is read next.
    pub open spec fn pending_offset(&self) -> usize {
        self.offsets()[self.reads().len() as int]
    }

    pub closed spec fn wf(&self) -> bool {
        &&& self.reads@.len() <= self.offsets@.len()
        &&& self.next == self.reads@.len()
        &&& self.failed <==> chain_walk(self.start as int, self.offsets@, self.reads@) is None
        &&& !self.failed ==> chain_walk(self.start as int, self.offsets@, self.reads@) == Some(
            self.addr as int,
        )
    }

    /// Start a walk from `start` along `offsets`.
    pub fn new(start: usize, offsets: &[usize]) -> (r: ChainWalk)
        ensures
            r.wf(),
            r.start() == start,
            r.offsets() == offsets@,
            r.reads() == Seq::<Option<usize>>::empty(),
    {
        let mut v: Vec<usize> = Vec::new();
        let mut i: usize = 0;
        while i < offsets.len()
            invariant
                i <= offsets@.len(),
                v@ == offsets@.take(i as int),
            decreases offsets@.len() - i,
        {
            v.push(offsets[i]);
            i = i + 1;
            assert(v@ =~= offsets@.take(i as int));
        }
        assert(v@ =~= offsets@);
        let reads: Ghost<Seq<Option<usize>>> = Ghost(Seq::empty());
        ChainWalk { start, offsets: v, addr: start, next: 0, failed: false, reads }
    }

    /// What the walk needs next: the address of the pending read, or the end
    /// of the chain (`None` when a link failed).
    pub fn step(&self) -> (r: ChainStep)
        requires
            self.wf(),
        ensures
            match r {
                ChainStep::Read(a) => self.pending() && self.position() == Some(a as int),
                ChainStep::Done(t) => !self.pending() && match t {
                    Some(a) => self.position() == Some(a as int) && self.reads().len()
                        == self.offsets().len(),
                    None => self.position() is None,
                },
            },
    {
        if self.failed {
            ChainStep::Done(None)
        } else if self.next < self.offsets.len() {
            ChainStep::Read(self.addr)
        } else {
            ChainStep::Done(Some(self.addr))
        }
    }

    /// Number of reads fed so far.
    fn next_index(&self) -> (r: usize)
        requires
            self.wf(),
        ensures
            r == self.reads().len(),
    {
        self.next
    }

    /// Offset of the link whose pointer is read next.
    pub fn next_offset(&self) -> (r: usize)
        requires
            self.wf(),
            self.pending(),
        ensures
            r == self.pending_offset(),
    {
        self.offsets[self.next_index()]
    }

    /// Feed the pointer that the pending read returned (`None` if it failed).
    pub fn feed(&mut self, ptr: Option<usize>)
        requires
            old(self).wf(),
            old(self).pending(),
            ptr matches Some(p) ==> p < MIN_VALID_POINTER || p + old(self).pending_offset()
                <= usize::MAX,
        ensures
            final(self).wf(),
            final(self).start() == old(self).start(),
            final(self).offsets() == old(self).offsets(),
            final(self).reads() == old(self).reads().push(ptr),
    {
        let off = self.offsets[self.next_index()];
        let n = self.offsets.len();
        assert(self.next < n);
        let ghost old_reads = self.reads@;
        self.reads = Ghost(old_reads.push(ptr));
        self.next = self.next + 1;
        proof {
            assert(self.reads@.drop_last() =~= old_reads);
        }
        match ptr {
            Some(p) => {
                if p < MIN_VALID_POINTER {
                    self.failed = true;
                } else {
                    self.addr = p + off;
                }
            },
            None => {
                self.failed = true;
            },
        }
    }
}

// ── Assembling reads from 64-bit words ──────────────────────────────────────

/// Byte `k` (0 = least significant) of a little-endian 64-bit word.
pub open spec fn word_byte(word: u64, k: int) -> u8 {
    ((word >> ((8 * k) as u64)) & 0xFF) as u8
}

/// Copy the little-endian bytes of `word` into `buf` from `offset` on, as many
/// as fit (at most 8). Returns the offset after the last byte written.
pub fn copy_word(buf: &mut [u8], offset: usize, word: u64) -> (next: usize)
    requires
        offset < old(buf)@.len(),
    ensures
        next == offset + (if old(buf)@.len() - offset < 8 { old(buf)@.len() - offset } else { 8 }),
        final(buf)@.len() == old(buf)@.len(),
        forall|i: int| offset <= i < next ==> #[trigger] final(buf)@[i] == word_byte(word, i - offset),
        forall|i: int|
            0 <= i < old(buf)@.len() && !(offset <= i < next) ==> #[trigger] final(buf)@[i]
                == old(buf)@[i],
{
    let len = buf.len();
    let chunk = if len - offset < 8 {
        len - offset
    } else {
        8
    };
    let mut k: usize = 0;
    while k < chunk
        invariant
            len == old(buf)@.len(),
            buf@.len() == len,
            offset < len,
            chunk <= 8,
            offset + chunk <= len,
            k <= chunk,
            forall|i: int| offset <= i < offset + k ==> #[trigger] buf@[i] == word_byte(word, i - offset),
            forall|i: int|
                0 <= i < len && !(offset <= i < offset + k) ==> #[trigger] buf@[i] == old(buf)@[i],
        decreases chunk - k,
    {
        let shift: u64 = 8 * k as u64;
        let masked: u64 = (word >> shift) & 0xFF;
        assert(masked < 256) by (bit_vector)
            requires
                masked == (word >> shift) & 0xFF,
        ;
        buf[offset + k] = masked as u8;
        k = k + 1;
    }
    offset + chunk
}

} // verus!
