//! Record field accessors: what transformation logic calls.
//!
//! A getter calls the matching import, unpacks the handle that comes back and
//! hands the buffer to the caller, who owns it from then on. A setter calls
//! the matching import with a buffer's address and length and releases
//! nothing: the buffer stays the caller's, who may set it on another field or
//! release it. A property's name is marshalled into a buffer of its own that
//! lives for the duration of the call.
use crate::codec::{lemma_unpack_pack, spec_unpack, unpack};
use crate::memory::{placed, LinearBuffer, LinearMemory};
use crate::record::{Record, RecordView};
use vstd::prelude::*;

verus! {

/// The bytes that a name crosses the boundary as: its UTF-8 encoding.
pub open spec fn name_bytes(name: Seq<char>) -> Seq<u8> {
    vstd::utf8::encode_utf8(name)
}

/// The number of bytes that `name` crosses the boundary as: what a caller
/// holds against `LinearMemory::remaining` before it passes the name on.
pub fn name_length(name: &String) -> (length: usize)
    ensures
        length == name_bytes(name@).len(),
{
    name.as_str().as_bytes().len()
}

/// What a getter leaves behind: `data` sits in `buffer`, a new live buffer
/// that overlaps nothing that was reserved before, `skipped` bytes above the
/// old top of the memory; no other region was added and none was dropped.
pub open spec fn received(
    before: LinearMemory,
    after: LinearMemory,
    buffer: LinearBuffer,
    data: Seq<u8>,
    skipped: int,
) -> bool {
    &&& after.wf()
    &&& buffer.address == before.spec_top() + skipped
    &&& buffer.length == data.len()
    &&& after@ == placed(before@, buffer.address as int, data)
    &&& before.free_at(buffer.address as int, buffer.length as int)
    &&& after.holds(buffer.address, buffer.length)
    &&& after.bytes(buffer.address, buffer.length) == data
}

/// Takes ownership of the buffer that a handle names. Nothing is validated:
/// the handle is trusted to come from a "get" import.
pub fn adopt(handle: u64) -> (buffer: LinearBuffer)
    ensures
        (buffer.address, buffer.length) == spec_unpack(handle),
{
    let (address, length) = unpack(handle);
    LinearBuffer::from_raw_parts(address, length)
}

/// Reads the record's payload into a buffer that the caller owns.
pub fn get_record_value(record: &Record, memory: &mut LinearMemory) -> (buffer: LinearBuffer)
    requires
        record.wf(),
        old(memory).wf(),
        old(memory).spec_top() + record@.value.len() <= u32::MAX,
    ensures
        received(*old(memory), *final(memory), buffer, record@.value, 0),
{
    let handle = record.get_value(memory);
    proof {
        lemma_unpack_pack(old(memory).spec_top() as u32, record@.value.len() as u32);
    }
    adopt(handle)
}

/// Sets the record's payload to the bytes of `buffer`, which stays live and
/// the caller's.
pub fn set_record_value(record: &mut Record, memory: &LinearMemory, buffer: &LinearBuffer)
    requires
        old(record).wf(),
        memory.wf(),
        memory.holds(buffer.address, buffer.length),
    ensures
        final(record).wf(),
        final(record)@ == old(record)@.with_value(memory.bytes(buffer.address, buffer.length)),
{
    record.set_value(memory, buffer.address, buffer.length);
}

/// Reads the record's key into a buffer that the caller owns; the buffer is
/// empty where the record has no key.
pub fn get_record_key(record: &Record, memory: &mut LinearMemory) -> (buffer: LinearBuffer)
    requires
        record.wf(),
        old(memory).wf(),
        old(memory).spec_top() + record@.key_bytes().len() <= u32::MAX,
    ensures
        received(*old(memory), *final(memory), buffer, record@.key_bytes(), 0),
{
    let handle = record.get_key(memory);
    proof {
        lemma_unpack_pack(old(memory).spec_top() as u32, record@.key_bytes().len() as u32);
    }
    adopt(handle)
}

/// Sets the record's key to the bytes of `buffer`, which stays live and the
/// caller's.
pub fn set_record_key(record: &mut Record, memory: &LinearMemory, buffer: &LinearBuffer)
    requires
        old(record).wf(),
        memory.wf(),
        memory.holds(buffer.address, buffer.length),
    ensures
        final(record).wf(),
        final(record)@ == old(record)@.with_key(memory.bytes(buffer.address, buffer.length)),
{
    record.set_key(memory, buffer.address, buffer.length);
}

/// Reads the property `name` into a buffer that the caller owns; the buffer
/// is empty where the record has no such property, as it is for a property
/// with an empty value. The name's own buffer is released before the call
/// returns.
pub fn get_record_property(record: &Record, memory: &mut LinearMemory, name: String) -> (buffer:
    LinearBuffer)
    requires
        record.wf(),
        old(memory).wf(),
        old(memory).spec_top() + name_bytes(name@).len() + record@.property_bytes(
            name_bytes(name@),
        ).len() <= u32::MAX,
    ensures
        received(
            *old(memory),
            *final(memory),
            buffer,
            record@.property_bytes(name_bytes(name@)),
            name_bytes(name@).len() as int,
        ),
{
    let name_data: Vec<u8> = name.as_str().as_bytes_vec();
    let name_buffer = memory.store(&name_data);
    let ghost named = *memory;
    let handle = record.get_property(memory, name_buffer.address, name_buffer.length);
    let ghost value = record@.property_bytes(name_bytes(name@));
    proof {
        lemma_unpack_pack(named.spec_top() as u32, value.len() as u32);
    }
    let buffer = adopt(handle);
    let ghost filled = *memory;
    proof {
        if name_buffer.length > 0 {
            filled.lemma_region_live(old(memory)@.len() as int);
        }
    }
    memory.release(name_buffer.address, name_buffer.length);
    proof {
        assert(memory@ =~= placed(old(memory)@, buffer.address as int, value));
        if buffer.length > 0 {
            memory.lemma_region_live(memory@.len() - 1);
        }
        assert forall|i: int| 0 <= i < old(memory)@.len() implies crate::memory::apart(
            #[trigger] old(memory)@[i],
            buffer.address as int,
            buffer.length as int,
        ) by {}
    }
    buffer
}

/// Sets the property `name` to the bytes of `buffer`, which stays live and
/// the caller's. The name's own buffer is released before the call returns,
/// so the same regions are reserved after the call as before it.
pub fn set_record_property(
    record: &mut Record,
    memory: &mut LinearMemory,
    name: String,
    buffer: &LinearBuffer,
)
    requires
        old(record).wf(),
        old(memory).wf(),
        old(memory).holds(buffer.address, buffer.length),
        old(memory).spec_top() + name_bytes(name@).len() <= u32::MAX,
    ensures
        final(record).wf(),
        final(record)@ == old(record)@.with_property(
            name_bytes(name@),
            old(memory).bytes(buffer.address, buffer.length),
        ),
        final(memory).wf(),
        final(memory)@ == old(memory)@,
{
    let name_data: Vec<u8> = name.as_str().as_bytes_vec();
    let name_buffer = memory.store(&name_data);
    proof {
        lemma_kept(*old(memory), *memory, name_data@, buffer.address, buffer.length);
    }
    record.set_property(
        memory,
        name_buffer.address,
        name_buffer.length,
        buffer.address,
        buffer.length,
    );
    memory.release(name_buffer.address, name_buffer.length);
    proof {
        assert(memory@ =~= old(memory)@);
    }
}

/// Drops the property `name`; nothing changes where the record has no such
/// property. The name's own buffer is released before the call returns.
pub fn remove_record_property(record: &mut Record, memory: &mut LinearMemory, name: String)
    requires
        old(record).wf(),
        old(memory).wf(),
        old(memory).spec_top() + name_bytes(name@).len() <= u32::MAX,
    ensures
        final(record).wf(),
        final(record)@ == old(record)@.without_property(name_bytes(name@)),
        final(memory).wf(),
        final(memory)@ == old(memory)@,
{
    let name_data: Vec<u8> = name.as_str().as_bytes_vec();
    let name_buffer = memory.store(&name_data);
    record.remove_property(memory, name_buffer.address, name_buffer.length);
    memory.release(name_buffer.address, name_buffer.length);
    proof {
        assert(memory@ =~= old(memory)@);
    }
}

/// Reads the topic that the record was read from into a buffer that the
/// caller owns.
pub fn get_record_topic(record: &Record, memory: &mut LinearMemory) -> (buffer: LinearBuffer)
    requires
        record.wf(),
        old(memory).wf(),
        old(memory).spec_top() + record@.record_topic.len() <= u32::MAX,
    ensures
        received(*old(memory), *final(memory), buffer, record@.record_topic, 0),
{
    let handle = record.get_record_topic(memory);
    proof {
        lemma_unpack_pack(old(memory).spec_top() as u32, record@.record_topic.len() as u32);
    }
    adopt(handle)
}

/// Sets the topic that the record was read from to the bytes of `buffer`,
/// which stays live and the caller's.
pub fn set_record_topic(record: &mut Record, memory: &LinearMemory, buffer: &LinearBuffer)
    requires
        old(record).wf(),
        memory.wf(),
        memory.holds(buffer.address, buffer.length),
    ensures
        final(record).wf(),
        final(record)@ == old(record)@.with_record_topic(
            memory.bytes(buffer.address, buffer.length),
        ),
{
    record.set_record_topic(memory, buffer.address, buffer.length);
}

/// Reads the topic that the record is routed to into a buffer that the
/// caller owns; the buffer is empty while no destination is set.
pub fn get_destination_topic(record: &Record, memory: &mut LinearMemory) -> (buffer: LinearBuffer)
    requires
        record.wf(),
        old(memory).wf(),
        old(memory).spec_top() + record@.destination_bytes().len() <= u32::MAX,
    ensures
        received(*old(memory), *final(memory), buffer, record@.destination_bytes(), 0),
{
    let handle = record.get_destination_topic(memory);
    proof {
        lemma_unpack_pack(old(memory).spec_top() as u32, record@.destination_bytes().len() as u32);
    }
    adopt(handle)
}

/// Routes the record to the topic named by the bytes of `buffer`, which
/// stays live and the caller's.
pub fn set_destination_topic(record: &mut Record, memory: &LinearMemory, buffer: &LinearBuffer)
    requires
        old(record).wf(),
        memory.wf(),
        memory.holds(buffer.address, buffer.length),
    ensures
        final(record).wf(),
        final(record)@ == old(record)@.with_destination_topic(
            memory.bytes(buffer.address, buffer.length),
        ),
{
    record.set_destination_topic(memory, buffer.address, buffer.length);
}

/// A payload that is read right after it was set: the getter's buffer holds
/// the bytes that the setter was given.
pub proof fn lemma_value_round_trip(
    record: RecordView,
    stored: Seq<u8>,
    before: LinearMemory,
    after: LinearMemory,
    buffer: LinearBuffer,
)
    requires
        received(before, after, buffer, record.with_value(stored).value, 0),
    ensures
        buffer.length == stored.len(),
        after.bytes(buffer.address, buffer.length) == stored,
{
}

/// A key that is read right after it was set: the getter's buffer holds the
/// bytes that the setter was given.
pub proof fn lemma_key_round_trip(
    record: RecordView,
    stored: Seq<u8>,
    before: LinearMemory,
    after: LinearMemory,
    buffer: LinearBuffer,
)
    requires
        received(before, after, buffer, record.with_key(stored).key_bytes(), 0),
    ensures
        buffer.length == stored.len(),
        after.bytes(buffer.address, buffer.length) == stored,
{
}

/// A source topic that is read right after it was set: the getter's buffer
/// holds the bytes that the setter was given.
pub proof fn lemma_record_topic_round_trip(
    record: RecordView,
    stored: Seq<u8>,
    before: LinearMemory,
    after: LinearMemory,
    buffer: LinearBuffer,
)
    requires
        received(before, after, buffer, record.with_record_topic(stored).record_topic, 0),
    ensures
        buffer.length == stored.len(),
        after.bytes(buffer.address, buffer.length) == stored,
{
}

/// A destination topic that is read right after it was set: the getter's
/// buffer holds the bytes that the setter was given.
pub proof fn lemma_destination_topic_round_trip(
    record: RecordView,
    stored: Seq<u8>,
    before: LinearMemory,
    after: LinearMemory,
    buffer: LinearBuffer,
)
    requires
        received(
            before,
            after,
            buffer,
            record.with_destination_topic(stored).destination_bytes(),
            0,
        ),
    ensures
        buffer.length == stored.len(),
        after.bytes(buffer.address, buffer.length) == stored,
{
}

/// A property that is read right after it was set: the getter's buffer holds
/// the bytes that the setter was given.
pub proof fn lemma_property_round_trip(
    record: RecordView,
    name: Seq<char>,
    stored: Seq<u8>,
    before: LinearMemory,
    after: LinearMemory,
    buffer: LinearBuffer,
)
    requires
        received(
            before,
            after,
            buffer,
            record.with_property(name_bytes(name), stored).property_bytes(name_bytes(name)),
            name_bytes(name).len() as int,
        ),
    ensures
        buffer.length == stored.len(),
        after.bytes(buffer.address, buffer.length) == stored,
{
}

/// A property that is read right after it was removed: the getter's buffer
/// is empty, and no region was reserved for it.
pub proof fn lemma_removed_property_round_trip(
    record: RecordView,
    name: Seq<char>,
    before: LinearMemory,
    after: LinearMemory,
    buffer: LinearBuffer,
)
    requires
        received(
            before,
            after,
            buffer,
            record.without_property(name_bytes(name)).property_bytes(name_bytes(name)),
            name_bytes(name).len() as int,
        ),
    ensures
        buffer.length == 0,
        after.bytes(buffer.address, buffer.length) == Seq::<u8>::empty(),
        after@ == before@,
{
}

/// A buffer that is live before `data` is put into a new region at the top of
/// the memory is live afterwards, with the bytes it had.
pub proof fn lemma_kept(
    before: LinearMemory,
    after: LinearMemory,
    data: Seq<u8>,
    address: u32,
    length: u32,
)
    requires
        before.wf(),
        after.wf(),
        after@ == placed(before@, before.spec_top(), data),
        before.holds(address, length),
    ensures
        after.holds(address, length),
        after.bytes(address, length) == before.bytes(address, length),
{
    if length > 0 && data.len() > 0 {
        let i = before.index_of(address as int);
        assert(after@[i] == before@[i]);
        after.lemma_index_unique(i);
    }
}

} // verus!
