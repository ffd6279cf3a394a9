//! The record and the import surface.
//!
//! A record belongs to the host. The guest reaches it only through the import
//! surface: numeric calls that name a buffer in the guest's memory by address
//! and length, or return one as a packed handle. `Record` is a host that
//! keeps each field as the bytes it was given and hands them back verbatim.
use crate::codec::{pack, spec_pack};
use crate::memory::{placed, same_bytes, LinearMemory};
use vstd::prelude::*;

verus! {

/// A record as contracts see it.
pub ghost struct RecordView {
    pub key: Option<Seq<u8>>,
    pub value: Seq<u8>,
    pub properties: Map<Seq<u8>, Seq<u8>>,
    pub record_topic: Seq<u8>,
    pub destination_topic: Option<Seq<u8>>,
}

impl RecordView {
    /// What a read of the key gives: the key, or no bytes where there is none.
    pub open spec fn key_bytes(self) -> Seq<u8> {
        match self.key {
            Some(bytes) => bytes,
            None => Seq::empty(),
        }
    }

    /// What a read of the destination topic gives: the topic, or no bytes
    /// where none was set.
    pub open spec fn destination_bytes(self) -> Seq<u8> {
        match self.destination_topic {
            Some(bytes) => bytes,
            None => Seq::empty(),
        }
    }

    /// What a read of the property `name` gives: its value, or no bytes where
    /// the record has no such property. A missing property and an empty one
    /// read alike.
    pub open spec fn property_bytes(self, name: Seq<u8>) -> Seq<u8> {
        if self.properties.dom().contains(name) {
            self.properties[name]
        } else {
            Seq::empty()
        }
    }

    /// The record with `bytes` as its key.
    pub open spec fn with_key(self, bytes: Seq<u8>) -> RecordView {
        RecordView { key: Some(bytes), ..self }
    }

    /// The record with `bytes` as its value.
    pub open spec fn with_value(self, bytes: Seq<u8>) -> RecordView {
        RecordView { value: bytes, ..self }
    }

    /// The record with `bytes` as the topic it was read from.
    pub open spec fn with_record_topic(self, bytes: Seq<u8>) -> RecordView {
        RecordView { record_topic: bytes, ..self }
    }

    /// The record with `bytes` as the topic it is routed to.
    pub open spec fn with_destination_topic(self, bytes: Seq<u8>) -> RecordView {
        RecordView { destination_topic: Some(bytes), ..self }
    }

    /// The record with the property `name` set to `bytes`, in place of any
    /// value it had.
    pub open spec fn with_property(self, name: Seq<u8>, bytes: Seq<u8>) -> RecordView {
        RecordView { properties: self.properties.insert(name, bytes), ..self }
    }

    /// The record without the property `name`.
    pub open spec fn without_property(self, name: Seq<u8>) -> RecordView {
        RecordView { properties: self.properties.remove(name), ..self }
    }
}

/// A key that was set is the key that is read.
pub proof fn lemma_key_read_back(record: RecordView, bytes: Seq<u8>)
    ensures
        record.with_key(bytes).key_bytes() == bytes,
{
}

/// A payload that was set is the payload that is read.
pub proof fn lemma_value_read_back(record: RecordView, bytes: Seq<u8>)
    ensures
        record.with_value(bytes).value == bytes,
{
}

/// A source topic that was set is the source topic that is read.
pub proof fn lemma_record_topic_read_back(record: RecordView, bytes: Seq<u8>)
    ensures
        record.with_record_topic(bytes).record_topic == bytes,
{
}

/// A destination topic that was set is the destination topic that is read.
pub proof fn lemma_destination_topic_read_back(record: RecordView, bytes: Seq<u8>)
    ensures
        record.with_destination_topic(bytes).destination_bytes() == bytes,
{
}

/// A property that was set reads as the value it was set to, and setting it
/// changes what no other property reads as.
pub proof fn lemma_property_read_back(record: RecordView, name: Seq<u8>, bytes: Seq<u8>)
    ensures
        record.with_property(name, bytes).property_bytes(name) == bytes,
        forall|other: Seq<u8>|
            other != name ==> #[trigger] record.with_property(name, bytes).property_bytes(other)
                == record.property_bytes(other),
{
}

/// A property that was removed reads as no bytes, and removing it changes
/// what no other property reads as.
pub proof fn lemma_removed_property_reads_empty(record: RecordView, name: Seq<u8>)
    ensures
        record.without_property(name).property_bytes(name) == Seq::<u8>::empty(),
        forall|other: Seq<u8>|
            other != name ==> #[trigger] record.without_property(name).property_bytes(other)
                == record.property_bytes(other),
{
}

struct Property {
    name: Vec<u8>,
    value: Vec<u8>,
}

/// The record that a host holds while the guest works on it.
pub struct Record {
    key: Option<Vec<u8>>,
    value: Vec<u8>,
    properties: Vec<Property>,
    record_topic: Vec<u8>,
    destination_topic: Option<Vec<u8>>,
}

spec fn bytes_of(field: Option<Vec<u8>>) -> Option<Seq<u8>> {
    match field {
        Some(bytes) => Some(bytes@),
        None => None,
    }
}

spec fn listed(properties: Seq<Property>, name: Seq<u8>) -> bool {
    exists|i: int| 0 <= i < properties.len() && (#[trigger] properties[i]).name@ == name
}

spec fn place_of(properties: Seq<Property>, name: Seq<u8>) -> int {
    choose|i: int| 0 <= i < properties.len() && (#[trigger] properties[i]).name@ == name
}

spec fn table(properties: Seq<Property>) -> Map<Seq<u8>, Seq<u8>> {
    Map::new(
        |name: Seq<u8>| listed(properties, name),
        |name: Seq<u8>| properties[place_of(properties, name)].value@,
    )
}

spec fn distinct(properties: Seq<Property>) -> bool {
    forall|i: int, j: int|
        0 <= i < j < properties.len() ==> (#[trigger] properties[i]).name@ != (
        #[trigger] properties[j]).name@
}

proof fn lemma_place(properties: Seq<Property>, i: int)
    requires
        distinct(properties),
        0 <= i < properties.len(),
    ensures
        listed(properties, properties[i].name@),
        place_of(properties, properties[i].name@) == i,
        table(properties).dom().contains(properties[i].name@),
        table(properties)[properties[i].name@] == properties[i].value@,
{
    let name = properties[i].name@;
    let k = place_of(properties, name);
    assert(0 <= k < properties.len() && properties[k].name@ == name);
    if k < i {
        assert(properties[k].name@ != properties[i].name@);
    } else if i < k {
        assert(properties[i].name@ != properties[k].name@);
    }
}

impl View for Record {
    type V = RecordView;

    closed spec fn view(&self) -> RecordView {
        RecordView {
            key: bytes_of(self.key),
            value: self.value@,
            properties: table(self.properties@),
            record_topic: self.record_topic@,
            destination_topic: bytes_of(self.destination_topic),
        }
    }
}

impl Record {
    /// The record's invariant: no property name is held twice.
    pub closed spec fn wf(&self) -> bool {
        distinct(self.properties@)
    }

    /// A record read from `record_topic` with the payload `value`: no key, no
    /// property, no destination.
    pub fn new(value: Vec<u8>, record_topic: Vec<u8>) -> (record: Record)
        ensures
            record.wf(),
            record@ == (RecordView {
                key: None,
                value: value@,
                properties: Map::empty(),
                record_topic: record_topic@,
                destination_topic: None,
            }),
    {
        let record = Record {
            key: None,
            value,
            properties: Vec::new(),
            record_topic,
            destination_topic: None,
        };
        proof {
            assert(table(record.properties@) =~= Map::empty());
        }
        record
    }

    fn find(&self, name: &Vec<u8>) -> (place: Option<usize>)
        requires
            self.wf(),
        ensures
            match place {
                Some(i) => i < self.properties@.len() && self.properties@[i as int].name@ == name@
                    && self@.properties.dom().contains(name@) && self@.properties[name@]
                    == self.properties@[i as int].value@,
                None => !listed(self.properties@, name@) && !self@.properties.dom().contains(name@),
            },
    {
        let mut i: usize = 0;
        while i < self.properties.len()
            invariant
                self.wf(),
                i <= self.properties@.len(),
                forall|k: int| 0 <= k < i ==> (#[trigger] self.properties@[k]).name@ != name@,
            decreases self.properties@.len() - i,
        {
            if same_bytes(&self.properties[i].name, name) {
                proof {
                    lemma_place(self.properties@, i as int);
                }
                return Some(i);
            }
            i += 1;
        }
        None
    }

    /// Import `set_key`: the host takes the buffer's bytes as the key. The
    /// buffer stays the guest's.
    pub fn set_key(&mut self, memory: &LinearMemory, address: u32, length: u32)
        requires
            old(self).wf(),
            memory.wf(),
            memory.holds(address, length),
        ensures
            final(self).wf(),
            final(self)@ == old(self)@.with_key(memory.bytes(address, length)),
    {
        self.key = Some(memory.read(address, length));
    }

    /// Import `get_key`: the host puts the key into a buffer that it has the
    /// guest reserve, and returns the buffer's handle. Without a key the
    /// buffer is empty.
    pub fn get_key(&self, memory: &mut LinearMemory) -> (handle: u64)
        requires
            self.wf(),
            old(memory).wf(),
            old(memory).spec_top() + self@.key_bytes().len() <= u32::MAX,
        ensures
            handed_over(*old(memory), *final(memory), handle, self@.key_bytes()),
    {
        match &self.key {
            Some(bytes) => hand_over(memory, bytes),
            None => hand_over(memory, &Vec::new()),
        }
    }

    /// Import `set_value`: the host takes the buffer's bytes as the payload.
    pub fn set_value(&mut self, memory: &LinearMemory, address: u32, length: u32)
        requires
            old(self).wf(),
            memory.wf(),
            memory.holds(address, length),
        ensures
            final(self).wf(),
            final(self)@ == old(self)@.with_value(memory.bytes(address, length)),
    {
        self.value = memory.read(address, length);
    }

    /// Import `get_value`: the payload, in a new buffer of the guest.
    pub fn get_value(&self, memory: &mut LinearMemory) -> (handle: u64)
        requires
            self.wf(),
            old(memory).wf(),
            old(memory).spec_top() + self@.value.len() <= u32::MAX,
        ensures
            handed_over(*old(memory), *final(memory), handle, self@.value),
    {
        hand_over(memory, &self.value)
    }

    /// Import `set_record_topic`: the host takes the buffer's bytes as the
    /// topic that the record was read from.
    pub fn set_record_topic(&mut self, memory: &LinearMemory, address: u32, length: u32)
        requires
            old(self).wf(),
            memory.wf(),
            memory.holds(address, length),
        ensures
            final(self).wf(),
            final(self)@ == old(self)@.with_record_topic(memory.bytes(address, length)),
    {
        self.record_topic = memory.read(address, length);
    }

    /// Import `get_record_topic`: the topic that the record was read from,
    /// in a new buffer of the guest.
    pub fn get_record_topic(&self, memory: &mut LinearMemory) -> (handle: u64)
        requires
            self.wf(),
            old(memory).wf(),
            old(memory).spec_top() + self@.record_topic.len() <= u32::MAX,
        ensures
            handed_over(*old(memory), *final(memory), handle, self@.record_topic),
    {
        hand_over(memory, &self.record_topic)
    }

    /// Import `set_destination_topic`: the host takes the buffer's bytes as
    /// the topic to route the record to.
    pub fn set_destination_topic(&mut self, memory: &LinearMemory, address: u32, length: u32)
        requires
            old(self).wf(),
            memory.wf(),
            memory.holds(address, length),
        ensures
            final(self).wf(),
            final(self)@ == old(self)@.with_destination_topic(memory.bytes(address, length)),
    {
        self.destination_topic = Some(memory.read(address, length));
    }

    /// Import `get_destination_topic`: the topic that the record is routed
    /// to, in a new buffer of the guest; an empty buffer while none is set.
    pub fn get_destination_topic(&self, memory: &mut LinearMemory) -> (handle: u64)
        requires
            self.wf(),
            old(memory).wf(),
            old(memory).spec_top() + self@.destination_bytes().len() <= u32::MAX,
        ensures
            handed_over(*old(memory), *final(memory), handle, self@.destination_bytes()),
    {
        match &self.destination_topic {
            Some(bytes) => hand_over(memory, bytes),
            None => hand_over(memory, &Vec::new()),
        }
    }

    /// Import `set_property`: the host sets the property named by the first
    /// buffer to the bytes of the second, in place of any value it had.
    pub fn set_property(
        &mut self,
        memory: &LinearMemory,
        name_address: u32,
        name_length: u32,
        value_address: u32,
        value_length: u32,
    )
        requires
            old(self).wf(),
            memory.wf(),
            memory.holds(name_address, name_length),
            memory.holds(value_address, value_length),
        ensures
            final(self).wf(),
            final(self)@ == old(self)@.with_property(
                memory.bytes(name_address, name_length),
                memory.bytes(value_address, value_length),
            ),
    {
        let name: Vec<u8> = memory.read(name_address, name_length);
        let value: Vec<u8> = memory.read(value_address, value_length);
        let ghost before = self.properties@;
        let ghost n = name@;
        let ghost v = value@;
        match self.find(&name) {
            Some(i) => {
                self.properties.set(i, Property { name, value });
                proof {
                    let after = self.properties@;
                    assert forall|a: int, b: int| 0 <= a < b < after.len() implies (
                    #[trigger] after[a]).name@ != (#[trigger] after[b]).name@ by {
                        assert(after[a].name@ == before[a].name@);
                        assert(after[b].name@ == before[b].name@);
                    }
                    assert forall|m: Seq<u8>| listed(after, m) <==> #[trigger] listed(before, m) by {
                        if listed(after, m) {
                            let k = place_of(after, m);
                            assert(before[k].name@ == m);
                        }
                        if listed(before, m) {
                            let k = place_of(before, m);
                            assert(after[k].name@ == m);
                        }
                    }
                    assert forall|m: Seq<u8>| listed(after, m) implies #[trigger] table(after)[m] == (
                    if m == n {
                        v
                    } else {
                        table(before)[m]
                    }) by {
                        let k = place_of(after, m);
                        lemma_place(after, k);
                        assert(before[k].name@ == after[k].name@);
                        lemma_place(before, k);
                    }
                    assert(listed(after, n)) by {
                        lemma_place(after, i as int);
                    }
                    assert(table(after) =~= table(before).insert(n, v));
                }
            },
            None => {
                self.properties.push(Property { name, value });
                proof {
                    let after = self.properties@;
                    let last = after.len() - 1;
                    assert forall|a: int, b: int| 0 <= a < b < after.len() implies (
                    #[trigger] after[a]).name@ != (#[trigger] after[b]).name@ by {
                        assert(after[a] == before[a]);
                        if b < last {
                            assert(after[b] == before[b]);
                        }
                    }
                    assert forall|m: Seq<u8>| #[trigger] listed(after, m) <==> (m == n || listed(
                        before,
                        m,
                    )) by {
                        if listed(after, m) {
                            let k = place_of(after, m);
                            if k < last {
                                assert(before[k].name@ == m);
                            }
                        }
                        if listed(before, m) {
                            let k = place_of(before, m);
                            assert(after[k].name@ == m);
                        }
                        if m == n {
                            assert(after[last].name@ == m);
                        }
                    }
                    assert forall|m: Seq<u8>| listed(after, m) implies #[trigger] table(after)[m] == (
                    if m == n {
                        v
                    } else {
                        table(before)[m]
                    }) by {
                        let k = place_of(after, m);
                        lemma_place(after, k);
                        if k < last {
                            assert(before[k] == after[k]);
                            lemma_place(before, k);
                        }
                    }
                    assert(table(after) =~= table(before).insert(n, v));
                }
            },
        }
    }

    /// Import `get_property`: the value of the property named by the buffer,
    /// in a new buffer of the guest; an empty buffer where the record has no
    /// such property.
    pub fn get_property(&self, memory: &mut LinearMemory, name_address: u32, name_length: u32) -> (handle: u64)
        requires
            self.wf(),
            old(memory).wf(),
            old(memory).holds(name_address, name_length),
            old(memory).spec_top() + self@.property_bytes(
                old(memory).bytes(name_address, name_length),
            ).len() <= u32::MAX,
        ensures
            handed_over(
                *old(memory),
                *final(memory),
                handle,
                self@.property_bytes(old(memory).bytes(name_address, name_length)),
            ),
    {
        let name: Vec<u8> = memory.read(name_address, name_length);
        match self.find(&name) {
            Some(i) => hand_over(memory, &self.properties[i].value),
            None => hand_over(memory, &Vec::new()),
        }
    }

    /// Import `remove_property`: the host drops the property named by the
    /// buffer; nothing changes where the record has no such property.
    pub fn remove_property(&mut self, memory: &LinearMemory, name_address: u32, name_length: u32)
        requires
            old(self).wf(),
            memory.wf(),
            memory.holds(name_address, name_length),
        ensures
            final(self).wf(),
            final(self)@ == old(self)@.without_property(memory.bytes(name_address, name_length)),
    {
        let name: Vec<u8> = memory.read(name_address, name_length);
        let ghost before = self.properties@;
        let ghost n = name@;
        match self.find(&name) {
            Some(i) => {
                let _ = self.properties.remove(i);
                proof {
                    let after = self.properties@;
                    assert forall|k: int| 0 <= k < after.len() implies #[trigger] after[k] == before[if k
                        < i {
                        k
                    } else {
                        k + 1
                    }] by {}
                    assert forall|a: int, b: int| 0 <= a < b < after.len() implies (
                    #[trigger] after[a]).name@ != (#[trigger] after[b]).name@ by {
                        let a0 = if a < i { a } else { a + 1 };
                        let b0 = if b < i { b } else { b + 1 };
                        assert(after[a] == before[a0]);
                        assert(after[b] == before[b0]);
                        assert(before[a0].name@ != before[b0].name@);
                    }
                    assert forall|m: Seq<u8>| #[trigger] listed(after, m) <==> (m != n && listed(
                        before,
                        m,
                    )) by {
                        if listed(after, m) {
                            let k = place_of(after, m);
                            let k0 = if k < i { k } else { k + 1 };
                            assert(after[k] == before[k0]);
                            assert(before[k0].name@ == m);
                            lemma_place(before, k0);
                            lemma_place(before, i as int);
                        }
                        if m != n && listed(before, m) {
                            let k0 = place_of(before, m);
                            let k = if k0 < i { k0 } else { k0 - 1 };
                            assert(after[k] == before[k0]);
                            assert(after[k].name@ == m);
                        }
                    }
                    assert forall|m: Seq<u8>| listed(after, m) implies #[trigger] table(after)[m]
                        == table(before)[m] by {
                        let k = place_of(after, m);
                        let k0 = if k < i { k } else { k + 1 };
                        assert(after[k] == before[k0]);
                        lemma_place(after, k);
                        lemma_place(before, k0);
                    }
                    assert(table(after) =~= table(before).remove(n));
                }
            },
            None => {
                proof {
                    assert(table(before) =~= table(before).remove(n));
                }
            },
        }
    }

    /// The key, if the record has one.
    pub fn key(&self) -> (key: Option<&Vec<u8>>)
        ensures
            match key {
                Some(bytes) => self@.key == Some(bytes@),
                None => self@.key.is_none(),
            },
    {
        match &self.key {
            Some(bytes) => Some(bytes),
            None => None,
        }
    }

    /// The payload.
    pub fn value(&self) -> (value: &Vec<u8>)
        ensures
            value@ == self@.value,
    {
        &self.value
    }

    /// The topic that the record was read from.
    pub fn record_topic(&self) -> (topic: &Vec<u8>)
        ensures
            topic@ == self@.record_topic,
    {
        &self.record_topic
    }

    /// The topic that the record is routed to, if one was set.
    pub fn destination_topic(&self) -> (topic: Option<&Vec<u8>>)
        ensures
            match topic {
                Some(bytes) => self@.destination_topic == Some(bytes@),
                None => self@.destination_topic.is_none(),
            },
    {
        match &self.destination_topic {
            Some(bytes) => Some(bytes),
            None => None,
        }
    }

    /// The value of the property `name`, if the record has it.
    pub fn property(&self, name: &Vec<u8>) -> (value: Option<&Vec<u8>>)
        requires
            self.wf(),
        ensures
            match value {
                Some(bytes) => self@.properties.dom().contains(name@) && self@.properties[name@]
                    == bytes@,
                None => !self@.properties.dom().contains(name@),
            },
    {
        match self.find(name) {
            Some(i) => Some(&self.properties[i].value),
            None => None,
        }
    }
}

/// What a "get" import leaves behind: `data` sits in a new buffer of the
/// guest's memory, overlapping nothing that was reserved, and `handle` packs
/// that buffer's address and length.
pub open spec fn handed_over(before: LinearMemory, after: LinearMemory, handle: u64, data: Seq<u8>) -> bool {
    &&& after.wf()
    &&& data.len() <= u32::MAX
    &&& handle == spec_pack(before.spec_top() as u32, data.len() as u32)
    &&& after.spec_top() == before.spec_top() + data.len()
    &&& after@ == placed(before@, before.spec_top(), data)
    &&& before.free_at(before.spec_top(), data.len() as int)
    &&& after.holds(before.spec_top() as u32, data.len() as u32)
    &&& after.bytes(before.spec_top() as u32, data.len() as u32) == data
}

/// The host's half of every "get" import: have the guest reserve a buffer,
/// fill it with `data`, and pack its address and length.
pub fn hand_over(memory: &mut LinearMemory, data: &Vec<u8>) -> (handle: u64)
    requires
        old(memory).wf(),
        old(memory).spec_top() + data@.len() <= u32::MAX,
    ensures
        handed_over(*old(memory), *final(memory), handle, data@),
{
    let buffer = memory.store(data);
    pack(buffer.address, buffer.length)
}

} // verus!
