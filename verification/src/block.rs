//! A block: one contiguous region of the address space with a bump cursor.
//! It is the unit of both allocation and reclamation.

use crate::layout::address_limit;
use vstd::prelude::*;

verus! {

/// What a block is, mathematically: its address range, how far it is filled,
/// whether it awaits a reset, and the bytes it stores.
pub struct BlockModel {
    /// First address of the block.
    pub begin: nat,
    /// One past the last address of the block.
    pub end: nat,
    /// Address that the next allocation gets.
    pub cursor: nat,
    /// Set while the block is a candidate for reclamation.
    pub needs_reset: bool,
    /// Contents, one byte per address, first address first.
    pub bytes: Seq<u8>,
}

impl BlockModel {
    /// The cursor lies inside the range, the range lies below the address
    /// limit, and there is one stored byte per address.
    pub open spec fn wf(self) -> bool {
        &&& self.begin <= self.cursor <= self.end <= address_limit()
        &&& self.bytes.len() == self.end - self.begin
    }

    /// Number of bytes that the block spans.
    pub open spec fn capacity(self) -> nat {
        (self.end - self.begin) as nat
    }

    /// The address lies inside the block's range.
    pub open spec fn contains(self, address: nat) -> bool {
        self.begin <= address < self.end
    }

    /// `size` more bytes fit behind the cursor.
    pub open spec fn fits(self, size: nat) -> bool {
        self.cursor + size <= self.end
    }

    /// The block after `size` bytes were handed out.
    pub open spec fn bump(self, size: nat) -> BlockModel {
        BlockModel { cursor: self.cursor + size, ..self }
    }

    /// The block with its cursor back at the start and no reset pending.
    pub open spec fn reset(self) -> BlockModel {
        BlockModel { cursor: self.begin, needs_reset: false, ..self }
    }

    /// The block as a candidate for reclamation.
    pub open spec fn condemned(self) -> BlockModel {
        BlockModel { needs_reset: true, ..self }
    }

    /// The two ranges share no address.
    pub open spec fn disjoint(self, other: BlockModel) -> bool {
        self.end <= other.begin || other.end <= self.begin
    }

    /// `len` bytes starting at `address` lie in the part handed out so far.
    pub open spec fn holds(self, address: nat, len: nat) -> bool {
        self.begin <= address && address + len <= self.cursor
    }

    /// The `len` bytes stored from `address` on.
    pub open spec fn load(self, address: nat, len: nat) -> Seq<u8> {
        self.bytes.subrange(address - self.begin, address - self.begin + len)
    }

    /// The block with `values` stored from `address` on.
    pub open spec fn store(self, address: nat, values: Seq<u8>) -> BlockModel {
        BlockModel {
            bytes: Seq::new(
                self.bytes.len(),
                |i: int|
                    if address - self.begin <= i < address - self.begin + values.len() {
                        values[i - (address - self.begin)]
                    } else {
                        self.bytes[i]
                    },
            ),
            ..self
        }
    }

    /// A fresh block of `capacity` zero bytes starting at `base`.
    pub open spec fn fresh(base: nat, capacity: nat) -> BlockModel {
        BlockModel {
            begin: base,
            end: base + capacity,
            cursor: base,
            needs_reset: false,
            bytes: Seq::new(capacity, |i: int| 0u8),
        }
    }
}

/// A bump-allocated region.  Its capacity is fixed when it is created.
pub struct Block {
    begin: usize,
    end: usize,
    last: usize,
    need_reset: bool,
    data: Vec<u8>,
}

impl View for Block {
    type V = BlockModel;

    closed spec fn view(&self) -> BlockModel {
        BlockModel {
            begin: self.begin as nat,
            end: self.end as nat,
            cursor: self.last as nat,
            needs_reset: self.need_reset,
            bytes: self.data@,
        }
    }
}

impl Block {
    /// Creates the block that spans `capacity` bytes from `base` on, empty
    /// and filled with zero bytes.
    pub fn new(base: usize, capacity: usize) -> (block: Block)
        requires
            base + capacity <= address_limit(),
        ensures
            block@ == BlockModel::fresh(base as nat, capacity as nat),
            block@.wf(),
    {
        let block = Block {
            begin: base,
            end: base + capacity,
            last: base,
            need_reset: false,
            data: vec![0u8; capacity],
        };
        assert(block.data@ =~= Seq::new(capacity as nat, |i: int| 0u8));
        block
    }

    /// Hands out `size` bytes at the cursor and moves the cursor past them,
    /// or does nothing where they do not fit.
    pub fn try_allocate(&mut self, size: usize) -> (address: Option<usize>)
        requires
            old(self)@.wf(),
        ensures
            final(self)@.wf(),
            old(self)@.fits(size as nat) ==> address == Some(old(self)@.cursor as usize)
                && final(self)@ == old(self)@.bump(size as nat),
            !old(self)@.fits(size as nat) ==> address.is_none() && final(self)@ == old(self)@,
    {
        if size > self.end - self.last {
            return None;
        }
        let address = self.last;
        self.last = self.last + size;
        Some(address)
    }

    /// Whether the address lies inside the block's range.
    pub fn contains(&self, address: usize) -> (inside: bool)
        ensures
            inside == self@.contains(address as nat),
    {
        self.begin <= address && address < self.end
    }

    /// Resets the block: the cursor returns to the start and the pending
    /// reset is cleared.  The stored bytes stay as they are.
    pub fn free(&mut self)
        ensures
            final(self)@ == old(self)@.reset(),
    {
        self.need_reset = false;
        self.last = self.begin;
    }

    /// Marks the block as a candidate for reclamation.
    pub fn condemn(&mut self)
        ensures
            final(self)@ == old(self)@.condemned(),
    {
        self.need_reset = true;
    }

    /// First address of the block.
    pub fn begin(&self) -> (address: usize)
        ensures
            address == self@.begin,
    {
        self.begin
    }

    /// One past the last address of the block.
    pub fn end(&self) -> (address: usize)
        ensures
            address == self@.end,
    {
        self.end
    }

    /// Address that the next allocation gets.
    pub fn cursor(&self) -> (address: usize)
        ensures
            address == self@.cursor,
    {
        self.last
    }

    /// Whether the block awaits a reset.
    pub fn needs_reset(&self) -> (pending: bool)
        ensures
            pending == self@.needs_reset,
    {
        self.need_reset
    }

    /// Number of bytes that the block spans.
    pub fn capacity(&self) -> (bytes: usize)
        requires
            self@.wf(),
        ensures
            bytes == self@.capacity(),
    {
        self.end - self.begin
    }

    /// Whether `len` bytes starting at `address` lie in the part of the
    /// block that was handed out.
    pub fn holds(&self, address: usize, len: usize) -> (inside: bool)
        requires
            self@.wf(),
        ensures
            inside == self@.holds(address as nat, len as nat),
    {
        self.begin <= address && address <= self.last && len <= self.last - address
    }

    /// The `len` bytes stored from `address` on, if they lie in the part of
    /// the block that was handed out.
    pub fn read(&self, address: usize, len: usize) -> (bytes: Option<&[u8]>)
        requires
            self@.wf(),
        ensures
            self@.holds(address as nat, len as nat) ==> bytes.is_some() && bytes.unwrap()@
                == self@.load(address as nat, len as nat),
            !self@.holds(address as nat, len as nat) ==> bytes.is_none(),
    {
        if !self.holds(address, len) {
            return None;
        }
        let offset: usize = address - self.begin;
        Some(&self.data[offset..offset + len])
    }

    /// Stores `values` from `address` on, if they lie in the part of the
    /// block that was handed out; otherwise the block stays as it is.
    pub fn write(&mut self, address: usize, values: &[u8]) -> (stored: bool)
        requires
            old(self)@.wf(),
        ensures
            stored == old(self)@.holds(address as nat, values@.len()),
            stored ==> final(self)@ == old(self)@.store(address as nat, values@),
            !stored ==> final(self)@ == old(self)@,
            final(self)@.wf(),
    {
        let len: usize = values.len();
        if !self.holds(address, len) {
            return false;
        }
        let offset: usize = address - self.begin;
        let mut i: usize = 0;
        while i < len
            invariant
                i <= len,
                len == values@.len(),
                offset + len <= self.data@.len() <= usize::MAX,
                self.data@.len() == old(self).data@.len(),
                self.begin == old(self).begin,
                self.end == old(self).end,
                self.last == old(self).last,
                self.need_reset == old(self).need_reset,
                forall|j: int|
                    0 <= j < self.data@.len() ==> self.data@[j] == (if offset <= j < offset + i {
                        values@[j - offset]
                    } else {
                        old(self).data@[j]
                    }),
            decreases len - i,
        {
            self.data.set(offset + i, values[i]);
            i = i + 1;
        }
        assert(self.data@ =~= old(self)@.store(address as nat, values@).bytes);
        true
    }
}

} // verus!
