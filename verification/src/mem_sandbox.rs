//! The arena and the allocators built over the run-length-prefix tracker.

use vstd::prelude::*;

use crate::runs::find_from;
use crate::runs::find_spec;
use crate::runs::fresh_counters;
use crate::runs::lemma_counter_le;
use crate::runs::lemma_find_some_props;
use crate::runs::lemma_fresh_wf;
use crate::runs::lemma_mark_alloc_keeps_zero;
use crate::runs::lemma_mark_alloc_wf;
use crate::runs::lemma_mark_free_wf;
use crate::runs::lemma_run_end_is;
use crate::runs::lemma_run_end_props;
use crate::runs::lemma_tail_counters;
use crate::runs::mark_alloc_spec;
use crate::runs::mark_free_spec;
use crate::runs::run_end;
use crate::runs::wf_counters;

verus! {

/// A fixed 64-KiB linear buffer: the whole managed address space.  Offset 0
/// is a permanent sentinel that is never allocated or scanned.
#[derive(Debug, Clone, Eq, PartialEq)]
pub struct LuosMemory {
    buf: Vec<u8>,
}

impl LuosMemory {
    /// The arena bytes, as a mathematical sequence.
    pub closed spec fn bytes(&self) -> Seq<u8> {
        self.buf@
    }

    pub open spec fn wf(&self) -> bool {
        self.bytes().len() == 65535
    }

    /// A zero-filled arena.
    pub fn new() -> (r: Self)
        ensures
            r.wf(),
            forall|i: int| 0 <= i < 65535 ==> r.bytes()[i] == 0u8,
    {
        Self::new_filled_with(0)
    }

    /// An arena filled with a caller-chosen poison byte, so that untouched
    /// memory can be told apart from memory that was deliberately zeroed.
    pub fn new_filled_with(byte: u8) -> (r: Self)
        ensures
            r.wf(),
            forall|i: int| 0 <= i < 65535 ==> r.bytes()[i] == byte,
    {
        let mut buf: Vec<u8> = Vec::new();
        let mut i: usize = 0;
        while i < 65535
            invariant
                i <= 65535,
                buf@.len() == i as int,
                forall|j: int| 0 <= j < i ==> buf@[j] == byte,
            decreases 65535 - i,
        {
            buf.push(byte);
            i = i + 1;
        }
        LuosMemory { buf }
    }
}

/// The failure of an allocation request: no free run of the requested size
/// exists, or the request exceeds the 65534-byte ceiling.
#[derive(Debug, Clone, Copy, PartialEq, Eq, Structural)]
pub struct AllocErr;

/// A general allocator over one arena: a free-space tracker deciding where
/// allocations land, and the buffer the resulting offsets point into.
///
/// The tracker is the `used` array of run-length-prefix counters, one per
/// arena offset: 0 on every allocated offset, and on every free offset its
/// distance from the start of the maximal free run containing it.
#[derive(Debug, Clone)]
pub struct LuosAlloc {
    memory: LuosMemory,
    used: Vec<u16>,
}

impl LuosAlloc {
    /// The run-length-prefix counters, as a mathematical sequence.
    pub closed spec fn counters(&self) -> Seq<u16> {
        self.used@
    }

    /// The arena bytes, as a mathematical sequence.
    pub closed spec fn bytes(&self) -> Seq<u8> {
        self.memory.bytes()
    }

    pub open spec fn wf(&self) -> bool {
        &&& wf_counters(self.counters())
        &&& self.bytes().len() == 65535
    }

    /// A fresh allocator over the given arena: the sentinel allocated and
    /// offsets `1..65534` one single free run.
    pub fn new(memory: LuosMemory) -> (r: Self)
        requires
            memory.wf(),
        ensures
            r.wf(),
            r.counters() == fresh_counters(),
            r.bytes() == memory.bytes(),
    {
        let mut used: Vec<u16> = Vec::new();
        let mut i: usize = 0;
        while i < 65535
            invariant
                i <= 65535,
                used@.len() == i as int,
                forall|j: int| 0 <= j < i ==> used@[j] == j as u16,
            decreases 65535 - i,
        {
            used.push(i as u16);
            i = i + 1;
        }
        proof {
            assert(used@ =~= fresh_counters());
            lemma_fresh_wf();
        }
        LuosAlloc { memory, used }
    }

    /// The arena bytes from offset 1 up to the start of the trailing free
    /// run: the region that has ever been allocated into, without the
    /// provably untouched poison behind it.
    pub fn inner(&self) -> (r: &[u8])
        requires
            self.wf(),
        ensures
            r@ == self.bytes().subrange(1, 65535 - self.counters()[65534] as int),
    {
        proof {
            lemma_counter_le(self.counters(), 65534);
        }
        let i: usize = 65535 - self.used[65534] as usize;
        vstd::slice::slice_subrange(self.memory.buf.as_slice(), 1, i)
    }

    /// Scan offsets `1..65534` in increasing order for the first counter
    /// equal to `size`; the block `[start, start + size)` ending there is
    /// then the front of the leftmost free run long enough to hold the
    /// request.  A request for 0 bytes resolves to the sentinel offset and a
    /// request over 65534 bytes to no offset at all.
    pub fn get_unused_begin(&self, size: usize) -> (r: Option<usize>)
        requires
            self.wf(),
        ensures
            match r {
                Some(start) => find_spec(self.counters(), size as int) == Some(start as int),
                None => find_spec(self.counters(), size as int) is None,
            },
    {
        if size == 0 {
            return Some(0);
        }
        if size > 65534 {
            return None;
        }
        let ghost s = self.counters();
        let mut i: usize = 1;
        while i < 65535
            invariant
                self.wf(),
                s == self.counters(),
                1 <= size <= 65534,
                1 <= i <= 65535,
                find_from(s, size as int, 1) == find_from(s, size as int, i as int),
            decreases 65535 - i,
        {
            if self.used[i] == size as u16 {
                proof {
                    lemma_counter_le(s, i as int);
                }
                return Some(i + 1 - size);
            }
            i = i + 1;
        }
        None
    }

    /// Convert the free block `[start, start + len)` to allocated.  If the
    /// run being consumed has free offsets beyond the block, every counter
    /// of that remaining tail drops by the block's last counter, because the
    /// tail's run start has shifted right past the block; then the block's
    /// own counters are zeroed.
    ///
    /// The caller must hand a block that lies entirely within one free run,
    /// as `get_unused_begin` produces.
    #[verifier::rlimit(50)]
    pub fn record_alloc_memory(&mut self, start: usize, len: usize)
        requires
            old(self).wf(),
            1 <= start,
            1 <= len,
            start + len <= 65535,
            forall|i: int| start <= i < start + len ==> old(self).counters()[i] != 0,
        ensures
            final(self).wf(),
            final(self).counters() == mark_alloc_spec(
                old(self).counters(),
                start as int,
                len as int,
            ),
            final(self).bytes() == old(self).bytes(),
    {
        let ghost s0 = self.used@;
        let ghost mem0 = self.memory;
        let ghost e = run_end(s0, start as int + len as int);
        proof {
            lemma_run_end_props(s0, start as int + len as int);
            lemma_tail_counters(s0, start as int, len as int);
        }
        let m = self.used[start + len - 1];
        let mut i: usize = start + len;
        while i < 65535 && self.used[i] != 0
            invariant
                1 <= start,
                1 <= len,
                start + len <= i <= 65535,
                m == s0[start as int + len as int - 1],
                self.memory == mem0,
                self.used@.len() == 65535,
                forall|j: int| start + len <= j < run_end(s0, start as int + len as int)
                    ==> #[trigger] s0[j] as int == m as int + (j - (start + len) + 1),
                forall|j: int| 0 <= j < start + len ==> self.used@[j] == s0[j],
                forall|j: int| i <= j < 65535 ==> self.used@[j] == s0[j],
                forall|j: int| start + len <= j < i ==> s0[j] != 0,
                forall|j: int| start + len <= j < i ==> #[trigger] self.used@[j] as int
                    == s0[j] as int - m as int,
            decreases 65535 - i,
        {
            proof {
                assert(s0[i as int] != 0);
                lemma_run_end_props(s0, start as int + len as int);
                let re = run_end(s0, start as int + len as int);
                assert((i as int) < re) by {
                    if re <= i as int {
                        assert(s0[re] == 0);
                        assert(s0[re] != 0);
                    }
                }
                assert(s0[i as int] as int == m as int + (i as int - (start + len) + 1));
            }
            let v = self.used[i];
            self.used[i] = v - m;
            i = i + 1;
        }
        proof {
            lemma_run_end_is(s0, start as int + len as int, i as int);
        }
        let mut j: usize = start;
        while j < start + len
            invariant
                start <= j <= start + len,
                start + len <= 65535,
                self.memory == mem0,
                self.used@.len() == 65535,
                forall|t: int| 0 <= t < start ==> self.used@[t] == s0[t],
                forall|t: int| start <= t < j ==> self.used@[t] == 0,
                forall|t: int| j <= t < start + len ==> self.used@[t] == s0[t],
                forall|t: int| start + len <= t < e ==> #[trigger] self.used@[t] as int
                    == s0[t] as int - m as int,
                forall|t: int| e <= t < 65535 ==> self.used@[t] == s0[t],
                m == s0[start as int + len as int - 1],
                e == run_end(s0, start as int + len as int),
                start + len <= e <= 65535,
            decreases start + len - j,
        {
            self.used[j] = 0;
            j = j + 1;
        }
        proof {
            assert(self.used@ =~= mark_alloc_spec(s0, start as int, len as int));
            lemma_mark_alloc_wf(s0, start as int, len as int);
        }
    }

    /// Convert the allocated block `[start, start + len)` back to free,
    /// merging with both neighbours.  The block continues its predecessor's
    /// run — a fresh run of `1..len` when the predecessor is allocated or
    /// the block sits at the left edge — and if a free run follows the
    /// block, its counters are recomputed to continue the merged run.
    ///
    /// The caller must hand a block it genuinely owns: a range the tracker
    /// currently records as allocated.
    pub fn record_dealloc_memory(&mut self, start: usize, len: usize)
        requires
            old(self).wf(),
            1 <= start,
            1 <= len,
            start + len <= 65535,
            forall|i: int| start <= i < start + len ==> old(self).counters()[i] == 0,
        ensures
            final(self).wf(),
            final(self).counters() == mark_free_spec(
                old(self).counters(),
                start as int,
                len as int,
            ),
            final(self).bytes() == old(self).bytes(),
    {
        let ghost s0 = self.used@;
        let ghost mem0 = self.memory;
        let ghost e = run_end(s0, start as int + len as int);
        proof {
            lemma_run_end_props(s0, start as int + len as int);
            lemma_counter_le(s0, start as int - 1);
        }
        let last = self.used[start - 1];
        let mut j: usize = start;
        while j < start + len
            invariant
                start <= j <= start + len,
                start + len <= 65535,
                1 <= start,
                last == s0[start as int - 1],
                last as int <= start as int - 1,
                self.memory == mem0,
                self.used@.len() == 65535,
                forall|t: int| 0 <= t < start ==> self.used@[t] == s0[t],
                forall|t: int| start <= t < j ==> #[trigger] self.used@[t] as int
                    == last as int + 1 + (t - start),
                forall|t: int| j <= t < 65535 ==> self.used@[t] == s0[t],
            decreases start + len - j,
        {
            let c: u16 = last + 1 + ((j - start) as u16);
            self.used[j] = c;
            j = j + 1;
        }
        let mut i: usize = start + len;
        while i < 65535 && self.used[i] != 0
            invariant
                start + len <= i <= 65535,
                start + len <= 65535,
                1 <= start,
                1 <= len,
                last == s0[start as int - 1],
                last as int <= start as int - 1,
                self.memory == mem0,
                self.used@.len() == 65535,
                forall|t: int| 0 <= t < start ==> self.used@[t] == s0[t],
                forall|t: int| start <= t < i ==> #[trigger] self.used@[t] as int
                    == last as int + 1 + (t - start),
                forall|t: int| i <= t < 65535 ==> self.used@[t] == s0[t],
                forall|t: int| start + len <= t < i ==> s0[t] != 0,
            decreases 65535 - i,
        {
            proof {
                assert(s0[i as int] != 0);
                assert(self.used@[i as int - 1] as int == last as int + 1 + (i as int - 1
                    - start));
            }
            let prev = self.used[i - 1];
            self.used[i] = prev + 1;
            i = i + 1;
        }
        proof {
            lemma_run_end_is(s0, start as int + len as int, i as int);
            assert(self.used@ =~= mark_free_spec(s0, start as int, len as int));
            lemma_mark_free_wf(s0, start as int, len as int);
        }
    }

    /// Read one arena byte.
    pub fn read_byte(&self, offset: usize) -> (b: u8)
        requires
            self.wf(),
            offset < 65535,
        ensures
            b == self.bytes()[offset as int],
    {
        self.memory.buf[offset]
    }

    /// Write one arena byte.  The tracker is not consulted: the arena
    /// supports raw byte access so that a test author can fill and inspect
    /// allocated blocks.
    pub fn write_byte(&mut self, offset: usize, byte: u8)
        requires
            old(self).wf(),
            offset < 65535,
        ensures
            final(self).wf(),
            final(self).counters() == old(self).counters(),
            final(self).bytes() == old(self).bytes().update(offset as int, byte),
    {
        self.memory.buf[offset] = byte;
    }

    /// Reserve a block of `size` bytes and return its arena offset, or
    /// report that no free run is long enough.  The alignment is accepted
    /// but not enforced by the search: placement is byte-granular.
    #[allow(unused_variables)]
    pub fn allocate(&mut self, size: usize, align: usize) -> (r: Result<usize, AllocErr>)
        requires
            old(self).wf(),
        ensures
            final(self).wf(),
            final(self).bytes() == old(self).bytes(),
            match r {
                Ok(start) => find_spec(old(self).counters(), size as int) == Some(
                    start as int,
                ) && final(self).counters() == (if size == 0 {
                    old(self).counters()
                } else {
                    mark_alloc_spec(old(self).counters(), start as int, size as int)
                }),
                Err(_) => find_spec(old(self).counters(), size as int) is None && *final(self)
                    == *old(self),
            },
    {
        match self.get_unused_begin(size) {
            Some(start) => {
                if size > 0 {
                    proof {
                        lemma_find_some_props(self.counters(), size as int, start as int);
                    }
                    self.record_alloc_memory(start, size);
                }
                Ok(start)
            },
            None => Err(AllocErr),
        }
    }

    /// As `allocate`, then overwrite the returned block with zero, so that
    /// genuinely zeroed memory can be told apart from leftover poison or
    /// leaked bytes.
    #[allow(unused_variables)]
    pub fn allocate_zeroed(&mut self, size: usize, align: usize) -> (r: Result<usize, AllocErr>)
        requires
            old(self).wf(),
        ensures
            final(self).wf(),
            match r {
                Ok(start) => find_spec(old(self).counters(), size as int) == Some(
                    start as int,
                ) && final(self).counters() == (if size == 0 {
                    old(self).counters()
                } else {
                    mark_alloc_spec(old(self).counters(), start as int, size as int)
                }) && final(self).bytes() == zeroed_range(
                    old(self).bytes(),
                    start as int,
                    size as int,
                ),
                Err(_) => find_spec(old(self).counters(), size as int) is None && *final(self)
                    == *old(self),
            },
    {
        let ghost b0 = self.memory.bytes();
        match self.get_unused_begin(size) {
            Some(start) => {
                proof {
                    if size > 0 {
                        lemma_find_some_props(self.counters(), size as int, start as int);
                    }
                }
                let ghost c1 = if size == 0 {
                    self.counters()
                } else {
                    mark_alloc_spec(self.counters(), start as int, size as int)
                };
                if size > 0 {
                    self.record_alloc_memory(start, size);
                }
                let mut j: usize = start;
                while j < start + size
                    invariant
                        start <= j <= start + size,
                        start + size <= 65535,
                        self.used@ == c1,
                        wf_counters(c1),
                        self.used@.len() == 65535,
                        self.memory.bytes().len() == 65535,
                        forall|t: int| 0 <= t < start ==> self.memory.bytes()[t] == b0[t],
                        forall|t: int| start <= t < j ==> self.memory.bytes()[t] == 0u8,
                        forall|t: int| j <= t < 65535 ==> self.memory.bytes()[t] == b0[t],
                    decreases start + size - j,
                {
                    self.memory.buf[j] = 0;
                    j = j + 1;
                }
                proof {
                    assert(self.memory.bytes() =~= zeroed_range(b0, start as int,
                        size as int));
                }
                Ok(start)
            },
            None => Err(AllocErr),
        }
    }

    /// Return the block `[start, start + size)` to the tracker, merging it
    /// with any free neighbours.  The caller must pass the offset and size
    /// of a block it was handed by `allocate` and has not yet freed; the
    /// alignment is accepted for symmetry and ignored.
    #[allow(unused_variables)]
    pub fn deallocate(&mut self, start: usize, size: usize, align: usize)
        requires
            old(self).wf(),
            1 <= start,
            1 <= size,
            start + size <= 65535,
            forall|i: int| start <= i < start + size ==> old(self).counters()[i] == 0,
        ensures
            final(self).wf(),
            final(self).counters() == mark_free_spec(
                old(self).counters(),
                start as int,
                size as int,
            ),
            final(self).bytes() == old(self).bytes(),
    {
        self.record_dealloc_memory(start, size);
    }

    /// Resize the block at `start` from `old_size` to `new_size` bytes.
    ///
    /// In-place growth happens exactly when the search for the extra
    /// `new_size - old_size` bytes lands on the offset just past the block:
    /// only the extra span is then marked and the offset is returned
    /// unchanged.  In every other case — the search landing elsewhere or
    /// finding no run of the extra size at all — the block is freed first
    /// and `new_size` bytes are allocated afresh, possibly elsewhere;
    /// freeing can merge the block with its free neighbours into a run that
    /// satisfies the request, even at the old offset.  Payload migration is
    /// the caller's concern.  When the fresh allocation fails the old block
    /// is already gone — the historical order of operations, kept
    /// deliberately.
    #[allow(unused_variables)]
    pub fn reallocate(
        &mut self,
        start: usize,
        old_size: usize,
        new_size: usize,
        align: usize,
    ) -> (r: Result<usize, AllocErr>)
        requires
            old(self).wf(),
            1 <= start,
            1 <= old_size,
            start + old_size <= 65535,
            old_size <= new_size,
            forall|i: int| start <= i < start + old_size ==> old(self).counters()[i] == 0,
        ensures
            final(self).wf(),
            final(self).bytes() == old(self).bytes(),
            ({
                let s0 = old(self).counters();
                let diff = new_size - old_size;
                let grown = find_spec(s0, diff as int) == Some(start as int + old_size as int);
                let s1 = mark_free_spec(s0, start as int, old_size as int);
                match r {
                    Ok(addr) => {
                        if grown {
                            addr == start && final(self).counters() == mark_alloc_spec(
                                s0,
                                start as int + old_size as int,
                                diff as int,
                            )
                        } else {
                            &&& find_spec(s1, new_size as int) == Some(addr as int)
                            &&& final(self).counters() == mark_alloc_spec(
                                s1,
                                addr as int,
                                new_size as int,
                            )
                        }
                    },
                    Err(_) => {
                        &&& !grown
                        &&& find_spec(s1, new_size as int) is None
                        &&& final(self).counters() == s1
                    },
                }
            }),
    {
        let diff = new_size - old_size;
        let extra = self.get_unused_begin(diff);
        let in_place = match extra {
            Some(ext) => ext == start + old_size,
            None => false,
        };
        if in_place {
            proof {
                assert(diff > 0) by {
                    if diff == 0 {
                        assert(find_spec(self.counters(), 0) == Some(0int));
                    }
                }
                lemma_find_some_props(self.counters(), diff as int, (start + old_size) as int);
            }
            self.record_alloc_memory(start + old_size, diff);
            Ok(start)
        } else {
            self.record_dealloc_memory(start, old_size);
            match self.get_unused_begin(new_size) {
                Some(fresh) => {
                    proof {
                        lemma_find_some_props(self.counters(), new_size as int, fresh as int);
                    }
                    self.record_alloc_memory(fresh, new_size);
                    Ok(fresh)
                },
                None => Err(AllocErr),
            }
        }
    }
}

/// The arena bytes after a block has been overwritten with zero.
pub open spec fn zeroed_range(b: Seq<u8>, start: int, len: int) -> Seq<u8> {
    Seq::new(b.len(), |i: int| if start <= i < start + len { 0u8 } else { b[i] })
}

/// A fault-injection variant of `LuosAlloc`: every resize moves the block,
/// never growing it in place, to surface client bugs that wrongly assume
/// address stability across a resize.
#[derive(Debug, Clone)]
pub struct LuosMustReplaceAlloc {
    a: LuosAlloc,
}

impl LuosMustReplaceAlloc {
    /// The run-length-prefix counters of the wrapped allocator.
    pub closed spec fn counters(&self) -> Seq<u16> {
        self.a.counters()
    }

    /// The arena bytes of the wrapped allocator.
    pub closed spec fn bytes(&self) -> Seq<u8> {
        self.a.bytes()
    }

    pub open spec fn wf(&self) -> bool {
        &&& wf_counters(self.counters())
        &&& self.bytes().len() == 65535
    }

    pub fn new(memory: LuosMemory) -> (r: Self)
        requires
            memory.wf(),
        ensures
            r.wf(),
            r.counters() == fresh_counters(),
            r.bytes() == memory.bytes(),
    {
        let a = LuosAlloc::new(memory);
        LuosMustReplaceAlloc { a }
    }

    /// The arena bytes from offset 1 up to the start of the trailing free
    /// run.
    pub fn inner(&self) -> (r: &[u8])
        requires
            self.wf(),
        ensures
            r@ == self.bytes().subrange(1, 65535 - self.counters()[65534] as int),
    {
        self.a.inner()
    }

    /// As `LuosAlloc::allocate`.
    #[allow(unused_variables)]
    pub fn allocate(&mut self, size: usize, align: usize) -> (r: Result<usize, AllocErr>)
        requires
            old(self).wf(),
        ensures
            final(self).wf(),
            final(self).bytes() == old(self).bytes(),
            match r {
                Ok(start) => find_spec(old(self).counters(), size as int) == Some(
                    start as int,
                ) && final(self).counters() == (if size == 0 {
                    old(self).counters()
                } else {
                    mark_alloc_spec(old(self).counters(), start as int, size as int)
                }),
                Err(_) => find_spec(old(self).counters(), size as int) is None && *final(self)
                    == *old(self),
            },
    {
        self.a.allocate(size, align)
    }

    /// As `LuosAlloc::allocate_zeroed`.
    #[allow(unused_variables)]
    pub fn allocate_zeroed(&mut self, size: usize, align: usize) -> (r: Result<usize, AllocErr>)
        requires
            old(self).wf(),
        ensures
            final(self).wf(),
            match r {
                Ok(start) => find_spec(old(self).counters(), size as int) == Some(
                    start as int,
                ) && final(self).counters() == (if size == 0 {
                    old(self).counters()
                } else {
                    mark_alloc_spec(old(self).counters(), start as int, size as int)
                }) && final(self).bytes() == zeroed_range(
                    old(self).bytes(),
                    start as int,
                    size as int,
                ),
                Err(_) => find_spec(old(self).counters(), size as int) is None && *final(self)
                    == *old(self),
            },
    {
        self.a.allocate_zeroed(size, align)
    }

    /// As `LuosAlloc::deallocate`.
    #[allow(unused_variables)]
    pub fn deallocate(&mut self, start: usize, size: usize, align: usize)
        requires
            old(self).wf(),
            1 <= start,
            1 <= size,
            start + size <= 65535,
            forall|i: int| start <= i < start + size ==> old(self).counters()[i] == 0,
        ensures
            final(self).wf(),
            final(self).counters() == mark_free_spec(
                old(self).counters(),
                start as int,
                size as int,
            ),
            final(self).bytes() == old(self).bytes(),
    {
        self.a.deallocate(start, size, align)
    }

    /// Resize by always taking the move branch: a fresh block is allocated
    /// while the old one is still held, so the returned offset can never
    /// equal the old one, and only then is the old block freed.  A failing
    /// fresh allocation leaves the old block intact.
    #[allow(unused_variables)]
    pub fn reallocate(
        &mut self,
        start: usize,
        old_size: usize,
        new_size: usize,
        align: usize,
    ) -> (r: Result<usize, AllocErr>)
        requires
            old(self).wf(),
            1 <= start,
            1 <= old_size,
            start + old_size <= 65535,
            forall|i: int| start <= i < start + old_size ==> old(self).counters()[i] == 0,
        ensures
            final(self).wf(),
            final(self).bytes() == old(self).bytes(),
            ({
                let s0 = old(self).counters();
                match r {
                    Ok(addr) => {
                        &&& find_spec(s0, new_size as int) == Some(addr as int)
                        &&& addr != start
                        &&& final(self).counters() == mark_free_spec(
                            if new_size == 0 {
                                s0
                            } else {
                                mark_alloc_spec(s0, addr as int, new_size as int)
                            },
                            start as int,
                            old_size as int,
                        )
                    },
                    Err(_) => find_spec(s0, new_size as int) is None && *final(self) == *old(
                        self,
                    ),
                }
            }),
    {
        let ghost s0 = self.counters();
        match self.a.allocate(new_size, align) {
            Ok(addr) => {
                proof {
                    if new_size > 0 {
                        lemma_find_some_props(s0, new_size as int, addr as int);
                        assert forall|i: int| start <= i < start + old_size implies self.a.counters()[i]
                            == 0 by {
                            lemma_mark_alloc_keeps_zero(s0, addr as int, new_size as int, i);
                        }
                    }
                }
                self.a.deallocate(start, old_size, align);
                Ok(addr)
            },
            Err(e) => Err(e),
        }
    }
}

/// An allocator meant to stand behind a process-wide default-allocator
/// interface.  It holds exclusive ownership of the wrapped allocator through
/// one heap indirection, released exactly once when the adapter itself is
/// dropped; serialising concurrent use is the embedding code's burden.
pub struct LuosGlobalAlloc {
    a: Box<LuosAlloc>,
}

impl LuosGlobalAlloc {
    /// The wrapped allocator.
    pub closed spec fn allocator(&self) -> LuosAlloc {
        *self.a
    }

    pub open spec fn wf(&self) -> bool {
        self.allocator().wf()
    }

    pub fn new(memory: LuosMemory) -> (r: Self)
        requires
            memory.wf(),
        ensures
            r.wf(),
            r.allocator().counters() == fresh_counters(),
            r.allocator().bytes() == memory.bytes(),
    {
        let inner = LuosAlloc::new(memory);
        let a = Box::new(inner);
        LuosGlobalAlloc { a }
    }

    /// As `LuosAlloc::allocate`, on the owned allocator.
    pub fn allocate(&mut self, size: usize, align: usize) -> (r: Result<usize, AllocErr>)
        requires
            old(self).wf(),
        ensures
            final(self).wf(),
            final(self).allocator().bytes() == old(self).allocator().bytes(),
            match r {
                Ok(start) => find_spec(old(self).allocator().counters(), size as int) == Some(
                    start as int,
                ) && final(self).allocator().counters() == (if size == 0 {
                    old(self).allocator().counters()
                } else {
                    mark_alloc_spec(old(self).allocator().counters(), start as int, size as int)
                }),
                Err(_) => find_spec(old(self).allocator().counters(), size as int) is None
                    && *final(self) == *old(self),
            },
    {
        (&mut *self.a).allocate(size, align)
    }

    /// As `LuosAlloc::allocate_zeroed`, on the owned allocator.
    pub fn allocate_zeroed(&mut self, size: usize, align: usize) -> (r: Result<usize, AllocErr>)
        requires
            old(self).wf(),
        ensures
            final(self).wf(),
            match r {
                Ok(start) => find_spec(old(self).allocator().counters(), size as int) == Some(
                    start as int,
                ) && final(self).allocator().counters() == (if size == 0 {
                    old(self).allocator().counters()
                } else {
                    mark_alloc_spec(old(self).allocator().counters(), start as int, size as int)
                }) && final(self).allocator().bytes() == zeroed_range(
                    old(self).allocator().bytes(),
                    start as int,
                    size as int,
                ),
                Err(_) => find_spec(old(self).allocator().counters(), size as int) is None
                    && *final(self) == *old(self),
            },
    {
        (&mut *self.a).allocate_zeroed(size, align)
    }

    /// As `LuosAlloc::deallocate`, on the owned allocator.
    pub fn deallocate(&mut self, start: usize, size: usize, align: usize)
        requires
            old(self).wf(),
            1 <= start,
            1 <= size,
            start + size <= 65535,
            forall|i: int| start <= i < start + size ==> old(self).allocator().counters()[i]
                == 0,
        ensures
            final(self).wf(),
            final(self).allocator().counters() == mark_free_spec(
                old(self).allocator().counters(),
                start as int,
                size as int,
            ),
            final(self).allocator().bytes() == old(self).allocator().bytes(),
    {
        (&mut *self.a).deallocate(start, size, align)
    }

    /// As `LuosAlloc::reallocate`, on the owned allocator.
    pub fn reallocate(
        &mut self,
        start: usize,
        old_size: usize,
        new_size: usize,
        align: usize,
    ) -> (r: Result<usize, AllocErr>)
        requires
            old(self).wf(),
            1 <= start,
            1 <= old_size,
            start + old_size <= 65535,
            old_size <= new_size,
            forall|i: int| start <= i < start + old_size ==> old(self).allocator().counters()[i]
                == 0,
        ensures
            final(self).wf(),
            final(self).allocator().bytes() == old(self).allocator().bytes(),
            ({
                let s0 = old(self).allocator().counters();
                let diff = new_size - old_size;
                let grown = find_spec(s0, diff as int) == Some(start as int + old_size as int);
                let s1 = mark_free_spec(s0, start as int, old_size as int);
                match r {
                    Ok(addr) => {
                        if grown {
                            addr == start && final(self).allocator().counters()
                                == mark_alloc_spec(
                                s0,
                                start as int + old_size as int,
                                diff as int,
                            )
                        } else {
                            &&& find_spec(s1, new_size as int) == Some(addr as int)
                            &&& final(self).allocator().counters() == mark_alloc_spec(
                                s1,
                                addr as int,
                                new_size as int,
                            )
                        }
                    },
                    Err(_) => {
                        &&& !grown
                        &&& find_spec(s1, new_size as int) is None
                        &&& final(self).allocator().counters() == s1
                    },
                }
            }),
    {
        (&mut *self.a).reallocate(start, old_size, new_size, align)
    }
}

} // verus!
