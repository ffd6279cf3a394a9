//! The guest's linear memory and its allocator.
//!
//! The allocator serves the boundary protocol and nothing else: a region is
//! always taken right above the highest one that is reserved. Memory comes
//! back when the highest region is released; a gap below it is not filled
//! again while something above it is live. A buffer of no bytes occupies no
//! memory: reserving it records nothing and releasing it does nothing.
use vstd::prelude::*;

verus! {

/// A contiguous run of bytes in linear memory. The value is a handle that is
/// neither copied nor cloned: whoever holds it owns the run.
#[derive(Debug)]
pub struct LinearBuffer {
    pub address: u32,
    pub length: u32,
}

impl LinearBuffer {
    /// The handle over `length` bytes at `address`.
    pub fn from_raw_parts(address: u32, length: u32) -> (buffer: LinearBuffer)
        ensures
            buffer.address == address,
            buffer.length == length,
    {
        LinearBuffer { address, length }
    }

    /// Gives the handle up for its address and its length.
    pub fn into_raw_parts(self) -> (parts: (u32, u32))
        ensures
            parts == (self.address, self.length),
    {
        (self.address, self.length)
    }
}

/// A reserved region as contracts see it: where it starts and what it holds.
pub ghost struct Region {
    pub address: int,
    pub bytes: Seq<u8>,
}

struct Block {
    address: u32,
    bytes: Vec<u8>,
}

/// One guest instance's linear memory: the reserved regions, lowest first.
pub struct LinearMemory {
    blocks: Vec<Block>,
}

/// The regions after `data` was put into a new region at `address`: one more
/// region, unless `data` is empty.
pub open spec fn placed(regions: Seq<Region>, address: int, data: Seq<u8>) -> Seq<Region> {
    if data.len() == 0 {
        regions
    } else {
        regions.push(Region { address, bytes: data })
    }
}

/// Whether the `length` bytes at `address` and the region `r` share no byte.
pub open spec fn apart(r: Region, address: int, length: int) -> bool {
    r.address + r.bytes.len() <= address || address + length <= r.address
}

impl View for LinearMemory {
    type V = Seq<Region>;

    closed spec fn view(&self) -> Seq<Region> {
        Seq::new(
            self.blocks@.len(),
            |i: int| Region { address: self.blocks@[i].address as int, bytes: self.blocks@[i].bytes@ },
        )
    }
}

impl LinearMemory {
    /// The address from which the next region is taken: the end of the
    /// highest reserved region, or 0 where nothing is reserved.
    pub open spec fn spec_top(&self) -> int {
        if self@.len() == 0 {
            0
        } else {
            self@.last().address + self@.last().bytes.len()
        }
    }

    /// The memory's invariant: every region holds at least one byte and lies
    /// within the address space, and each region ends before the next one
    /// starts.
    pub open spec fn wf(&self) -> bool {
        &&& forall|i: int|
            0 <= i < self@.len() ==> 0 <= (#[trigger] self@[i]).address && self@[i].bytes.len() > 0
                && self@[i].address + self@[i].bytes.len() <= u32::MAX
        &&& forall|i: int, j: int|
            0 <= i < j < self@.len() ==> (#[trigger] self@[i]).address + self@[i].bytes.len() <= (
            #[trigger] self@[j]).address
    }

    /// Whether a region starts at `address`.
    pub open spec fn reserved(&self, address: int) -> bool {
        exists|i: int| 0 <= i < self@.len() && (#[trigger] self@[i]).address == address
    }

    /// The place, among the regions, of the one that starts at `address`.
    pub open spec fn index_of(&self, address: int) -> int {
        choose|i: int| 0 <= i < self@.len() && (#[trigger] self@[i]).address == address
    }

    /// Whether `length` bytes at `address` are a live buffer: the empty
    /// buffer always, any other when exactly that region is reserved.
    pub open spec fn holds(&self, address: u32, length: u32) -> bool {
        length == 0 || (self.reserved(address as int) && self@[self.index_of(
            address as int,
        )].bytes.len() == length)
    }

    /// What a live buffer holds.
    pub open spec fn bytes(&self, address: u32, length: u32) -> Seq<u8> {
        if length == 0 {
            Seq::empty()
        } else {
            self@[self.index_of(address as int)].bytes
        }
    }

    /// Whether the `length` bytes at `address` overlap no reserved region.
    pub open spec fn free_at(&self, address: int, length: int) -> bool {
        forall|i: int| 0 <= i < self@.len() ==> apart(#[trigger] self@[i], address, length)
    }

    /// In a well-formed memory no two regions start at the same address.
    pub proof fn lemma_index_unique(&self, i: int)
        requires
            self.wf(),
            0 <= i < self@.len(),
        ensures
            self.reserved(self@[i].address),
            self.index_of(self@[i].address) == i,
    {
        let a = self@[i].address;
        let k = self.index_of(a);
        assert(0 <= k < self@.len() && self@[k].address == a);
        if k < i {
            assert(self@[k].address + self@[k].bytes.len() <= self@[i].address);
        } else if i < k {
            assert(self@[i].address + self@[i].bytes.len() <= self@[k].address);
        }
    }

    /// In a well-formed memory each region is a live buffer with its own
    /// bytes.
    pub proof fn lemma_region_live(&self, i: int)
        requires
            self.wf(),
            0 <= i < self@.len(),
        ensures
            self.holds(self@[i].address as u32, self@[i].bytes.len() as u32),
            self.bytes(self@[i].address as u32, self@[i].bytes.len() as u32) == self@[i].bytes,
    {
        self.lemma_index_unique(i);
    }

    /// In a well-formed memory no two regions share a byte.
    pub proof fn lemma_regions_apart(&self, i: int, j: int)
        requires
            self.wf(),
            0 <= i < self@.len(),
            0 <= j < self@.len(),
            i != j,
        ensures
            apart(self@[i], self@[j].address, self@[j].bytes.len() as int),
    {
        if i < j {
            assert(self@[i].address + self@[i].bytes.len() <= self@[j].address);
        } else {
            assert(self@[j].address + self@[j].bytes.len() <= self@[i].address);
        }
    }

    /// In a well-formed memory every region ends at or below `spec_top`.
    pub proof fn lemma_below_top(&self, i: int)
        requires
            self.wf(),
            0 <= i < self@.len(),
        ensures
            self@[i].address + self@[i].bytes.len() <= self.spec_top() <= u32::MAX,
    {
        let last = self@.len() - 1;
        if i < last {
            assert(self@[i].address + self@[i].bytes.len() <= self@[last].address);
        }
    }

    /// A memory with nothing reserved.
    pub fn new() -> (memory: LinearMemory)
        ensures
            memory.wf(),
            memory@.len() == 0,
            memory.spec_top() == 0,
    {
        LinearMemory { blocks: Vec::new() }
    }

    /// The address from which the next region is taken.
    pub fn top(&self) -> (address: u32)
        requires
            self.wf(),
        ensures
            address == self.spec_top(),
    {
        let count: usize = self.blocks.len();
        if count == 0 {
            0
        } else {
            proof {
                assert(self@[count - 1].address + self@[count - 1].bytes.len() <= u32::MAX);
            }
            self.blocks[count - 1].address + (self.blocks[count - 1].bytes.len() as u32)
        }
    }

    /// The number of bytes that can still be reserved.
    pub fn remaining(&self) -> (bytes: u32)
        requires
            self.wf(),
        ensures
            bytes == u32::MAX - self.spec_top(),
    {
        u32::MAX - self.top()
    }

    /// The number of reserved regions.
    pub fn live(&self) -> (count: usize)
        ensures
            count == self@.len(),
    {
        self.blocks.len()
    }

    fn find(&self, address: u32) -> (place: Option<usize>)
        requires
            self.wf(),
        ensures
            match place {
                Some(i) => i < self@.len() && self@[i as int].address == address
                    && self.reserved(address as int) && self.index_of(address as int) == i,
                None => !self.reserved(address as int),
            },
    {
        let mut i: usize = 0;
        while i < self.blocks.len()
            invariant
                self.wf(),
                i <= self.blocks@.len(),
                self@.len() == self.blocks@.len(),
                forall|k: int| 0 <= k < i ==> (#[trigger] self@[k]).address != address,
            decreases self.blocks@.len() - i,
        {
            if self.blocks[i].address == address {
                proof {
                    self.lemma_index_unique(i as int);
                }
                return Some(i);
            }
            i += 1;
        }
        None
    }

    /// The export through which the host has the guest set memory aside:
    /// reserves `size` bytes and returns their address. The region overlaps
    /// none that is reserved at the call, and stays reserved until it is
    /// released. What the region holds at first is not specified. The call
    /// asks that `size` bytes remain; see `remaining`.
    pub fn reserve(&mut self, size: u32) -> (address: u32)
        requires
            old(self).wf(),
            old(self).spec_top() + size <= u32::MAX,
        ensures
            final(self).wf(),
            address == old(self).spec_top(),
            final(self).spec_top() == old(self).spec_top() + size,
            old(self).free_at(address as int, size as int),
            size == 0 ==> final(self)@ == old(self)@,
            size > 0 ==> final(self)@.len() == old(self)@.len() + 1 && final(self)@.drop_last()
                == old(self)@ && final(self)@.last().address == address
                && final(self)@.last().bytes.len() == size,
            final(self).holds(address, size),
    {
        let address: u32 = self.top();
        if size > 0 {
            let bytes: Vec<u8> = vec![0u8; size as usize];
            self.blocks.push(Block { address, bytes });
            proof {
                assert forall|k: int| 0 <= k < old(self)@.len() implies apart(
                    #[trigger] old(self)@[k],
                    address as int,
                    size as int,
                ) by {
                    old(self).lemma_below_top(k);
                }
                assert(self@.drop_last() =~= old(self)@);
                assert(self@[self@.len() - 1].address == address);
                assert(self@[self@.len() - 1].bytes.len() == size);
                assert forall|k: int| 0 <= k < self@.len() - 1 implies #[trigger] self@[k] == old(
                    self,
                )@[k] by {}
                assert(self.wf());
                self.lemma_index_unique(self@.len() - 1);
            }
        }
        address
    }

    /// Releases the `length` bytes at `address`. The caller vouches that
    /// exactly this buffer is live; releasing anything else, or the same
    /// buffer twice, is outside the contract. Where the region was the
    /// highest one, its memory, and any gap right below it, can be reserved
    /// again.
    pub fn release(&mut self, address: u32, length: u32)
        requires
            old(self).wf(),
            old(self).holds(address, length),
        ensures
            final(self).wf(),
            final(self).spec_top() <= old(self).spec_top(),
            length == 0 ==> final(self)@ == old(self)@,
            length > 0 ==> final(self)@ == old(self)@.remove(old(self).index_of(address as int))
                && !final(self).reserved(address as int),
    {
        if length > 0 {
            match self.find(address) {
                Some(i) => {
                    let _ = self.blocks.remove(i);
                    proof {
                        assert(self@ =~= old(self)@.remove(i as int));
                        assert forall|k: int| 0 <= k < self@.len() implies #[trigger] self@[k] == old(
                            self,
                        )@[if k < i {
                            k
                        } else {
                            k + 1
                        }] by {}
                        if self@.len() > 0 {
                            old(self).lemma_below_top(
                                if self@.len() - 1 < i {
                                    self@.len() - 1
                                } else {
                                    self@.len() as int
                                },
                            );
                        }
                        assert forall|k: int| 0 <= k < self@.len() implies (#[trigger] self@[k]).address
                            != address by {
                            if k < i {
                                assert(self@[k] == old(self)@[k]);
                                old(self).lemma_index_unique(k);
                            } else {
                                assert(self@[k] == old(self)@[k + 1]);
                                old(self).lemma_index_unique(k + 1);
                            }
                        }
                    }
                },
                None => {},
            }
        }
    }

    /// Overwrites a live buffer with `data`, which has the buffer's length.
    /// No other region changes.
    pub fn write(&mut self, address: u32, data: &Vec<u8>)
        requires
            old(self).wf(),
            data@.len() <= u32::MAX,
            old(self).holds(address, data@.len() as u32),
        ensures
            final(self).wf(),
            final(self).spec_top() == old(self).spec_top(),
            final(self).bytes(address, data@.len() as u32) == data@,
            final(self).holds(address, data@.len() as u32),
            data@.len() == 0 ==> final(self)@ == old(self)@,
            data@.len() > 0 ==> final(self)@ == old(self)@.update(
                old(self).index_of(address as int),
                Region { address: address as int, bytes: data@ },
            ),
    {
        if data.len() > 0 {
            match self.find(address) {
                Some(i) => {
                    let bytes: Vec<u8> = copy_bytes(data);
                    self.blocks.set(i, Block { address, bytes });
                    proof {
                        assert(self@ =~= old(self)@.update(
                            i as int,
                            Region { address: address as int, bytes: data@ },
                        ));
                        self.lemma_index_unique(i as int);
                    }
                },
                None => {},
            }
        }
    }

    /// Reserves a buffer for `data` and fills it: the way a buffer comes
    /// into being in this memory, whether the guest composes it or a host
    /// hands it in. The call asks that `data` fits in what remains.
    pub fn store(&mut self, data: &Vec<u8>) -> (buffer: LinearBuffer)
        requires
            old(self).wf(),
            old(self).spec_top() + data@.len() <= u32::MAX,
        ensures
            final(self).wf(),
            buffer.address == old(self).spec_top(),
            buffer.length == data@.len(),
            final(self).spec_top() == old(self).spec_top() + data@.len(),
            old(self).free_at(buffer.address as int, buffer.length as int),
            final(self)@ == placed(old(self)@, buffer.address as int, data@),
            final(self).holds(buffer.address, buffer.length),
            final(self).bytes(buffer.address, buffer.length) == data@,
    {
        let length: u32 = data.len() as u32;
        let address: u32 = self.reserve(length);
        let ghost reserved = self@;
        self.write(address, data);
        proof {
            if length > 0 {
                assert(reserved.drop_last() == old(self)@);
                assert(self@ =~= old(self)@.push(Region { address: address as int, bytes: data@ }));
            }
        }
        LinearBuffer { address, length }
    }

    /// Copies out what a live buffer holds.
    pub fn read(&self, address: u32, length: u32) -> (data: Vec<u8>)
        requires
            self.wf(),
            self.holds(address, length),
        ensures
            data@ == self.bytes(address, length),
            data@.len() == length,
    {
        if length == 0 {
            Vec::new()
        } else {
            match self.find(address) {
                Some(i) => copy_bytes(&self.blocks[i].bytes),
                None => Vec::new(),
            }
        }
    }
}

/// The export through which the host, or the guest, gives the `length` bytes
/// at `address` back. Only a live buffer may be given back, and only once.
pub fn dealloc(memory: &mut LinearMemory, address: u32, length: u32)
    requires
        old(memory).wf(),
        old(memory).holds(address, length),
    ensures
        final(memory).wf(),
        final(memory).spec_top() <= old(memory).spec_top(),
        length == 0 ==> final(memory)@ == old(memory)@,
        length > 0 ==> final(memory)@ == old(memory)@.remove(old(memory).index_of(address as int))
            && !final(memory).reserved(address as int),
{
    memory.release(address, length)
}

/// A fresh vector with the bytes of `source`.
pub fn copy_bytes(source: &Vec<u8>) -> (copy: Vec<u8>)
    ensures
        copy@ == source@,
{
    let mut copy: Vec<u8> = Vec::new();
    let mut i: usize = 0;
    while i < source.len()
        invariant
            i <= source@.len(),
            copy@ == source@.subrange(0, i as int),
        decreases source@.len() - i,
    {
        copy.push(source[i]);
        i += 1;
        proof {
            assert(copy@ =~= source@.subrange(0, i as int));
        }
    }
    proof {
        assert(copy@ =~= source@);
    }
    copy
}

/// Whether two vectors hold the same bytes.
pub fn same_bytes(left: &Vec<u8>, right: &Vec<u8>) -> (same: bool)
    ensures
        same == (left@ == right@),
{
    if left.len() != right.len() {
        return false;
    }
    let mut i: usize = 0;
    while i < left.len()
        invariant
            i <= left@.len(),
            left@.len() == right@.len(),
            forall|k: int| 0 <= k < i ==> left@[k] == right@[k],
        decreases left@.len() - i,
    {
        if left[i] != right[i] {
            return false;
        }
        i += 1;
    }
    proof {
        assert(left@ =~= right@);
    }
    true
}

} // verus!
