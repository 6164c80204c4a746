//! The segmented memory manager.
//!
//! Memory is a table of slots indexed by segment ID. A slot either holds the
//! words of a live segment or is free. The IDs of the free slots wait on a
//! stack, the reuse pool, and are handed out again before any new ID is
//! minted. Slot 0 is the program segment: it is always live.

use vstd::prelude::*;

verus! {

/// Why a memory operation was refused.
#[derive(Clone, Copy, Debug, PartialEq, Eq, Structural)]
pub enum MemoryFault {
    /// The ID names no live segment: it was never issued, or it was
    /// deallocated and not issued again since.
    UnmappedSegment,
    /// The offset lies at or beyond the end of the segment.
    OutOfBounds,
    /// The program segment cannot be deallocated.
    ProgramSegment,
    /// The pool is empty and all 2^32 segment IDs have been minted.
    Exhausted,
}

/// The mathematical state of a memory: the slot table and the reuse pool,
/// whose last element is the next ID to be reissued.
pub struct MemoryView {
    pub table: Seq<Option<Seq<u32>>>,
    pub pool: Seq<u32>,
}

/// A segment of `size` words, all zero.
pub open spec fn zeros(size: u32) -> Seq<u32> {
    Seq::new(size as nat, |i: int| 0u32)
}

impl MemoryView {
    /// The program segment is live, every ID fits in 32 bits, and the pool
    /// holds exactly the IDs of the free slots, each once.
    pub open spec fn wf(self) -> bool {
        &&& 0 < self.table.len() <= 0x1_0000_0000
        &&& self.table[0] is Some
        &&& self.pool.no_duplicates()
        &&& forall|i: int|
            0 <= i < self.pool.len() ==> {
                &&& 0 < #[trigger] self.pool[i] < self.table.len()
                &&& self.table[self.pool[i] as int] is None
            }
        &&& forall|id: u32|
            id < self.table.len() && self.table[id as int] is None
                ==> #[trigger] self.pool.contains(id)
    }

    /// Whether `id` names a live segment.
    pub open spec fn is_mapped(self, id: u32) -> bool {
        id < self.table.len() && self.table[id as int] is Some
    }

    /// The words of the live segment `id`.
    pub open spec fn segment(self, id: u32) -> Seq<u32>
        recommends
            self.is_mapped(id),
    {
        self.table[id as int]->0
    }

    /// The memory of a machine that has just been started on `program`.
    pub open spec fn boot(program: Seq<u32>) -> MemoryView {
        MemoryView { table: seq![Some(program)], pool: Seq::empty() }
    }

    /// Allocation: the most recently freed ID if there is one, else the
    /// next ID never issued before, with `size` zero words behind it.
    pub open spec fn allocate(self, size: u32) -> Result<(MemoryView, u32), MemoryFault> {
        if self.pool.len() > 0 {
            let id = self.pool.last();
            Ok(
                (
                    MemoryView {
                        table: self.table.update(id as int, Some(zeros(size))),
                        pool: self.pool.drop_last(),
                    },
                    id,
                ),
            )
        } else if self.table.len() < 0x1_0000_0000 {
            Ok(
                (
                    MemoryView { table: self.table.push(Some(zeros(size))), pool: self.pool },
                    self.table.len() as u32,
                ),
            )
        } else {
            Err(MemoryFault::Exhausted)
        }
    }

    /// Deallocation: the slot is emptied and its ID goes on top of the pool.
    pub open spec fn deallocate(self, id: u32) -> Result<MemoryView, MemoryFault> {
        if id == 0 {
            Err(MemoryFault::ProgramSegment)
        } else if !self.is_mapped(id) {
            Err(MemoryFault::UnmappedSegment)
        } else {
            Ok(MemoryView { table: self.table.update(id as int, None), pool: self.pool.push(id) })
        }
    }

    /// The word at `offset` of segment `id`.
    pub open spec fn load(self, id: u32, offset: u32) -> Result<u32, MemoryFault> {
        if !self.is_mapped(id) {
            Err(MemoryFault::UnmappedSegment)
        } else if offset >= self.segment(id).len() {
            Err(MemoryFault::OutOfBounds)
        } else {
            Ok(self.segment(id)[offset as int])
        }
    }

    /// The instruction word at `pc`: a load from the program segment.
    pub open spec fn fetch(self, pc: u32) -> Result<u32, MemoryFault> {
        self.load(0, pc)
    }

    /// The memory after `value` is written at `offset` of segment `id`.
    pub open spec fn store(self, id: u32, offset: u32, value: u32) -> Result<
        MemoryView,
        MemoryFault,
    > {
        if !self.is_mapped(id) {
            Err(MemoryFault::UnmappedSegment)
        } else if offset >= self.segment(id).len() {
            Err(MemoryFault::OutOfBounds)
        } else {
            Ok(
                MemoryView {
                    table: self.table.update(
                        id as int,
                        Some(self.segment(id).update(offset as int, value)),
                    ),
                    pool: self.pool,
                },
            )
        }
    }

    /// The memory after the program segment is overwritten with the words
    /// of segment `id`.
    pub open spec fn load_segment(self, id: u32) -> Result<MemoryView, MemoryFault> {
        if !self.is_mapped(id) {
            Err(MemoryFault::UnmappedSegment)
        } else {
            Ok(
                MemoryView {
                    table: self.table.update(0, Some(self.segment(id))),
                    pool: self.pool,
                },
            )
        }
    }

    /// A freshly started memory is well formed.
    pub proof fn lemma_boot_wf(program: Seq<u32>)
        ensures
            Self::boot(program).wf(),
    {
        let m = Self::boot(program);
        assert forall|id: u32|
            id < m.table.len() && m.table[id as int] is None
            implies #[trigger] m.pool.contains(id) by {
            assert(id == 0);
        }
    }

    /// Allocation keeps a memory well formed.
    pub proof fn lemma_allocate_wf(self, size: u32)
        requires
            self.wf(),
        ensures
            self.allocate(size) matches Ok((memory, id)) ==> memory.wf() && memory.is_mapped(id)
                && !self.is_mapped(id) && id != 0,
    {
        if self.pool.len() > 0 {
            let last = self.pool.len() - 1;
            let id = self.pool[last];
            let memory = self.allocate(size)->Ok_0.0;
            assert forall|other: u32|
                other < memory.table.len() && memory.table[other as int] is None
                implies #[trigger] memory.pool.contains(other) by {
                assert(self.pool.contains(other));
                let i = choose|i: int| 0 <= i < self.pool.len() && self.pool[i] == other;
                assert(i != last);
                assert(memory.pool[i] == other);
            }
        } else if self.table.len() < 0x1_0000_0000 {
            let memory = self.allocate(size)->Ok_0.0;
            assert forall|other: u32|
                other < memory.table.len() && memory.table[other as int] is None
                implies #[trigger] memory.pool.contains(other) by {
                assert(other < self.table.len());
                assert(self.pool.contains(other));
            }
            let id = self.table.len() as u32;
            assert(!self.is_mapped(id));
        }
    }

    /// Deallocation keeps a memory well formed.
    pub proof fn lemma_deallocate_wf(self, id: u32)
        requires
            self.wf(),
        ensures
            self.deallocate(id) matches Ok(memory) ==> memory.wf() && !memory.is_mapped(id),
    {
        if id != 0 && self.is_mapped(id) {
            let memory = self.deallocate(id)->Ok_0;
            assert forall|i: int, j: int|
                0 <= i < memory.pool.len() && 0 <= j < memory.pool.len() && i != j
                implies memory.pool[i] != memory.pool[j] by {
                if i < self.pool.len() {
                    assert(self.table[self.pool[i] as int] is None);
                }
                if j < self.pool.len() {
                    assert(self.table[self.pool[j] as int] is None);
                }
            }
            assert forall|other: u32|
                other < memory.table.len() && memory.table[other as int] is None
                implies #[trigger] memory.pool.contains(other) by {
                if other == id {
                    assert(memory.pool[self.pool.len() as int] == id);
                } else {
                    assert(self.pool.contains(other));
                    let i = choose|i: int| 0 <= i < self.pool.len() && self.pool[i] == other;
                    assert(memory.pool[i] == other);
                }
            }
        }
    }

    /// A store keeps a memory well formed.
    pub proof fn lemma_store_wf(self, id: u32, offset: u32, value: u32)
        requires
            self.wf(),
        ensures
            self.store(id, offset, value) matches Ok(memory) ==> memory.wf(),
    {
        if self.store(id, offset, value) is Ok {
            let memory = self.store(id, offset, value)->Ok_0;
            assert forall|other: u32|
                other < memory.table.len() && memory.table[other as int] is None
                implies #[trigger] memory.pool.contains(other) by {
                assert(self.table[other as int] is None);
            }
        }
    }

    /// Replacing the program keeps a memory well formed.
    pub proof fn lemma_load_segment_wf(self, id: u32)
        requires
            self.wf(),
        ensures
            self.load_segment(id) matches Ok(memory) ==> memory.wf(),
    {
        if self.load_segment(id) is Ok {
            let memory = self.load_segment(id)->Ok_0;
            assert forall|other: u32|
                other < memory.table.len() && memory.table[other as int] is None
                implies #[trigger] memory.pool.contains(other) by {
                assert(self.table[other as int] is None);
            }
        }
    }

    /// The IDs handed out when one segment of each of `sizes` is allocated
    /// in turn, and the memory after the last of them. The allocations end
    /// at the first that is refused.
    pub open spec fn allocate_each(self, sizes: Seq<u32>) -> (MemoryView, Seq<u32>)
        decreases sizes.len(),
    {
        if sizes.len() == 0 {
            (self, Seq::empty())
        } else {
            match self.allocate(sizes[0]) {
                Ok((memory, id)) => {
                    let (last, ids) = memory.allocate_each(sizes.drop_first());
                    (last, seq![id] + ids)
                },
                Err(_) => (self, Seq::empty()),
            }
        }
    }

    /// While no ID waits in the pool, successive allocations mint
    /// successive IDs: the first is the size of the table, each later one
    /// is one more than the one before, so the IDs increase strictly. All
    /// the allocations succeed as long as IDs below 2^32 are left.
    pub proof fn lemma_minted_ids_increase(self, sizes: Seq<u32>)
        requires
            self.wf(),
            self.pool.len() == 0,
        ensures
            ({
                let (memory, ids) = self.allocate_each(sizes);
                &&& memory.wf()
                &&& memory.pool.len() == 0
                &&& ids.len() <= sizes.len()
                &&& self.table.len() + sizes.len() <= 0x1_0000_0000 ==> ids.len() == sizes.len()
                &&& forall|k: int| 0 <= k < ids.len() ==> #[trigger] ids[k] == self.table.len() + k
                &&& forall|j: int, k: int| 0 <= j < k < ids.len() ==> ids[j] < ids[k]
            }),
        decreases sizes.len(),
    {
        if sizes.len() > 0 {
            self.lemma_allocate_wf(sizes[0]);
            if let Ok((memory, id)) = self.allocate(sizes[0]) {
                memory.lemma_minted_ids_increase(sizes.drop_first());
                let (last, rest) = memory.allocate_each(sizes.drop_first());
                let ids = seq![id] + rest;
                assert forall|k: int| 0 <= k < ids.len() implies #[trigger] ids[k]
                    == self.table.len() + k by {
                    if k > 0 {
                        assert(ids[k] == rest[k - 1]);
                    }
                }
            }
        }
    }

    /// On a memory that has just been started, the allocations hand out
    /// the IDs 1, 2, 3 and so on.
    pub proof fn lemma_fresh_ids_count_from_one(program: Seq<u32>, sizes: Seq<u32>)
        requires
            sizes.len() < 0x1_0000_0000,
        ensures
            ({
                let ids = Self::boot(program).allocate_each(sizes).1;
                &&& ids.len() == sizes.len()
                &&& forall|k: int| 0 <= k < ids.len() ==> #[trigger] ids[k] == k + 1
            }),
    {
        Self::lemma_boot_wf(program);
        Self::boot(program).lemma_minted_ids_increase(sizes);
    }

    /// An allocation that follows a deallocation at once returns the ID
    /// just freed, and the segment behind it holds `size` zero words
    /// whatever it held before.
    pub proof fn lemma_freed_id_is_reused(self, id: u32, size: u32)
        requires
            self.wf(),
        ensures
            self.deallocate(id) matches Ok(freed) ==> {
                &&& freed.allocate(size) matches Ok((memory, reused))
                &&& reused == id
                &&& memory.is_mapped(id)
                &&& memory.segment(id) == zeros(size)
                &&& forall|offset: u32|
                    offset < size ==> #[trigger] memory.load(id, offset) == Ok::<u32, MemoryFault>(
                        0,
                    )
            },
    {
    }

    /// A load that follows a store reads the value stored at the place
    /// stored to, and what was there before everywhere else.
    pub proof fn lemma_load_after_store(self, id: u32, offset: u32, value: u32, other: u32, at: u32)
        ensures
            self.store(id, offset, value) matches Ok(memory) ==> {
                &&& memory.load(id, offset) == Ok::<u32, MemoryFault>(value)
                &&& (other != id || at != offset) ==> memory.load(other, at) == self.load(other, at)
            },
    {
    }

    /// After the program has been replaced with segment `id`, a fetch
    /// reads what a load from segment `id` read before: the fetch at
    /// counter 0 returns the first word of that segment, not the first
    /// word of the old program.
    pub proof fn lemma_fetch_after_load_segment(self, id: u32, pc: u32)
        ensures
            self.load_segment(id) matches Ok(memory) ==> {
                &&& memory.fetch(pc) == self.load(id, pc)
                &&& self.segment(id).len() > 0 ==> memory.fetch(0) == Ok::<u32, MemoryFault>(
                    self.segment(id)[0],
                )
            },
    {
    }
}

/// What a slot of the table stands for.
pub open spec fn slot_view(slot: Option<Vec<u32>>) -> Option<Seq<u32>> {
    match slot {
        Some(words) => Some(words@),
        None => None,
    }
}

/// A fresh segment of `size` zero words.
fn zeroed(size: u32) -> (words: Vec<u32>)
    ensures
        words@ == zeros(size),
{
    let words: Vec<u32> = vec![0u32; size as usize];
    assert(words@ =~= zeros(size));
    words
}

/// The segmented memory of one machine.
#[derive(Debug)]
pub struct Memory {
    pool: Vec<u32>,
    heap: Vec<Option<Vec<u32>>>,
}

impl View for Memory {
    type V = MemoryView;

    closed spec fn view(&self) -> MemoryView {
        MemoryView {
            table: Seq::new(self.heap@.len(), |i: int| slot_view(self.heap@[i])),
            pool: self.pool@,
        }
    }
}

impl Memory {
    /// A memory whose program segment holds `instructions` and that has no
    /// other segment.
    pub fn new(instructions: Vec<u32>) -> (memory: Memory)
        ensures
            memory@ == MemoryView::boot(instructions@),
            memory@.wf(),
    {
        let mut heap: Vec<Option<Vec<u32>>> = Vec::new();
        heap.push(Some(instructions));
        let memory = Memory { pool: Vec::new(), heap };
        proof {
            assert(memory@.table =~= seq![Some(instructions@)]);
            assert(memory@.pool =~= Seq::empty());
            MemoryView::lemma_boot_wf(instructions@);
        }
        memory
    }

    /// Creates a segment of `size` zero words and returns its ID: the most
    /// recently deallocated ID if one is waiting, else the next ID in
    /// sequence. Every size is served. The allocation is refused only when
    /// no ID is waiting and all 2^32 have been issued.
    pub fn allocate(&mut self, size: u32) -> (result: Result<u32, MemoryFault>)
        requires
            old(self)@.wf(),
        ensures
            final(self)@.wf(),
            match old(self)@.allocate(size) {
                Ok((memory, id)) => result == Ok::<u32, MemoryFault>(id) && final(self)@ == memory,
                Err(fault) => {
                    result == Err::<u32, MemoryFault>(fault) && final(self)@ == old(self)@
                },
            },
    {
        proof {
            old(self)@.lemma_allocate_wf(size);
        }
        match self.pool.pop() {
            Some(id) => {
                self.heap[id as usize] = Some(zeroed(size));
                proof {
                    let memory = old(self)@.allocate(size)->Ok_0.0;
                    assert(self@.table =~= memory.table);
                    assert(self@.pool =~= memory.pool);
                }
                Ok(id)
            },
            None => {
                if self.heap.len() > u32::MAX as usize {
                    return Err(MemoryFault::Exhausted);
                }
                let id: u32 = self.heap.len() as u32;
                self.heap.push(Some(zeroed(size)));
                proof {
                    let memory = old(self)@.allocate(size)->Ok_0.0;
                    assert(self@.table =~= memory.table);
                    assert(self@.pool =~= memory.pool);
                }
                Ok(id)
            },
        }
    }

    /// Clears segment `id` and puts its ID on top of the reuse pool. It is
    /// refused for the program segment and for an ID that names no live
    /// segment.
    pub fn deallocate(&mut self, id: u32) -> (result: Result<(), MemoryFault>)
        requires
            old(self)@.wf(),
        ensures
            final(self)@.wf(),
            match old(self)@.deallocate(id) {
                Ok(memory) => result == Ok::<(), MemoryFault>(()) && final(self)@ == memory,
                Err(fault) => {
                    result == Err::<(), MemoryFault>(fault) && final(self)@ == old(self)@
                },
            },
    {
        proof {
            old(self)@.lemma_deallocate_wf(id);
        }
        if id == 0 {
            return Err(MemoryFault::ProgramSegment);
        }
        if id as usize >= self.heap.len() {
            return Err(MemoryFault::UnmappedSegment);
        }
        if self.heap[id as usize].is_none() {
            return Err(MemoryFault::UnmappedSegment);
        }
        self.heap[id as usize] = None;
        self.pool.push(id);
        proof {
            let memory = old(self)@.deallocate(id)->Ok_0;
            assert(self@.table =~= memory.table);
            assert(self@.pool =~= memory.pool);
        }
        Ok(())
    }

    /// The word at `offset` of segment `id`. It is refused when `id` names
    /// no live segment or `offset` is out of the segment's bounds.
    pub fn load(&self, id: u32, offset: u32) -> (result: Result<u32, MemoryFault>)
        ensures
            result == self@.load(id, offset),
    {
        if id as usize >= self.heap.len() {
            return Err(MemoryFault::UnmappedSegment);
        }
        match &self.heap[id as usize] {
            Some(words) => {
                if offset as usize >= words.len() {
                    Err(MemoryFault::OutOfBounds)
                } else {
                    Ok(words[offset as usize])
                }
            },
            None => Err(MemoryFault::UnmappedSegment),
        }
    }

    /// The instruction word at `pc` of the program segment. It is refused
    /// when `pc` is out of the program's bounds.
    pub fn get_instruction(&self, pc: u32) -> (result: Result<u32, MemoryFault>)
        ensures
            result == self@.fetch(pc),
            self@.wf() ==> (result is Err <==> pc >= self@.segment(0).len()),
    {
        if self.heap.len() == 0 {
            return Err(MemoryFault::UnmappedSegment);
        }
        match &self.heap[0] {
            Some(words) => {
                if pc as usize >= words.len() {
                    Err(MemoryFault::OutOfBounds)
                } else {
                    Ok(words[pc as usize])
                }
            },
            None => Err(MemoryFault::UnmappedSegment),
        }
    }

    /// Writes `value` at `offset` of segment `id`. It is refused on the
    /// same inputs as a load.
    pub fn store(&mut self, id: u32, offset: u32, value: u32) -> (result: Result<
        (),
        MemoryFault,
    >)
        requires
            old(self)@.wf(),
        ensures
            final(self)@.wf(),
            match old(self)@.store(id, offset, value) {
                Ok(memory) => result == Ok::<(), MemoryFault>(()) && final(self)@ == memory,
                Err(fault) => {
                    result == Err::<(), MemoryFault>(fault) && final(self)@ == old(self)@
                },
            },
    {
        proof {
            old(self)@.lemma_store_wf(id, offset, value);
        }
        if id as usize >= self.heap.len() {
            return Err(MemoryFault::UnmappedSegment);
        }
        let result = match &mut self.heap[id as usize] {
            Some(words) => {
                if offset as usize >= words.len() {
                    Err(MemoryFault::OutOfBounds)
                } else {
                    words[offset as usize] = value;
                    Ok(())
                }
            },
            None => Err(MemoryFault::UnmappedSegment),
        };
        proof {
            match old(self)@.store(id, offset, value) {
                Ok(memory) => {
                    assert(self@.table =~= memory.table);
                },
                Err(_) => {
                    assert(self@.table =~= old(self)@.table);
                },
            }
        }
        result
    }

    /// Replaces the contents of the program segment with a copy of segment
    /// `id`. It is refused when `id` names no live segment. Loading the
    /// program segment onto itself changes nothing and copies nothing.
    pub fn load_segment(&mut self, id: u32) -> (result: Result<(), MemoryFault>)
        requires
            old(self)@.wf(),
        ensures
            final(self)@.wf(),
            match old(self)@.load_segment(id) {
                Ok(memory) => result == Ok::<(), MemoryFault>(()) && final(self)@ == memory,
                Err(fault) => {
                    result == Err::<(), MemoryFault>(fault) && final(self)@ == old(self)@
                },
            },
    {
        proof {
            old(self)@.lemma_load_segment_wf(id);
        }
        if id == 0 {
            proof {
                let memory = old(self)@.load_segment(id)->Ok_0;
                assert(self@.table =~= memory.table);
            }
            return Ok(());
        }
        if id as usize >= self.heap.len() {
            return Err(MemoryFault::UnmappedSegment);
        }
        let program: Vec<u32> = match &self.heap[id as usize] {
            Some(words) => words.clone(),
            None => {
                return Err(MemoryFault::UnmappedSegment);
            },
        };
        self.heap[0] = Some(program);
        proof {
            let memory = old(self)@.load_segment(id)->Ok_0;
            assert(self@.table =~= memory.table);
        }
        Ok(())
    }
}

} // verus!
