//! Transformations: what a host invokes once per record. Each one reaches the
//! record through the accessors alone and releases every buffer it was
//! handed, so that it leaves the memory as it found it.
use crate::accessors::{
    get_record_property, get_record_value, name_bytes, set_destination_topic, set_record_key,
    set_record_property, set_record_value,
};
use crate::memory::LinearMemory;
use crate::record::{Record, RecordView};
use vstd::prelude::*;
use vstd::string::StringSliceAdditionalSpecFns;

verus! {

/// The name of the property that `header_to_key` reads.
pub open spec fn key_header() -> Seq<u8> {
    seq![116u8, 104u8, 101u8, 45u8, 107u8, 101u8, 121u8]
}

/// The encoding of an ASCII literal is its characters, one byte each.
proof fn lemma_key_header()
    ensures
        name_bytes("the-key"@) == key_header(),
{
    reveal_strlit("the-key");
    vstd::string::is_ascii_spec_bytes("the-key");
    assert(vstd::string::is_ascii("the-key"));
    assert("the-key".spec_bytes() =~= key_header());
}

/// The name of the property that `copy_property` reads.
pub open spec fn property_in() -> Seq<u8> {
    seq![
        116u8, 104u8, 101u8, 45u8, 112u8, 114u8, 111u8, 112u8, 101u8, 114u8, 116u8, 121u8, 45u8,
        105u8, 110u8,
    ]
}

/// The name of the property that `copy_property` writes.
pub open spec fn property_out() -> Seq<u8> {
    seq![
        116u8, 104u8, 101u8, 45u8, 112u8, 114u8, 111u8, 112u8, 101u8, 114u8, 116u8, 121u8, 45u8,
        111u8, 117u8, 116u8,
    ]
}

/// The bytes that `cbr` puts before the payload to name the destination.
pub open spec fn output_prefix() -> Seq<u8> {
    seq![111u8, 117u8, 116u8, 112u8, 117u8, 116u8, 45u8]
}

/// The upper-case form of a text, as `str::to_uppercase` gives it.
pub uninterp spec fn uppercase(text: Seq<char>) -> Seq<char>;

/// The UTF-8 bytes of the upper-case form of the text that `bytes` encode.
pub open spec fn upper_bytes(bytes: Seq<u8>) -> Seq<u8> {
    vstd::utf8::encode_utf8(uppercase(vstd::utf8::decode_utf8(bytes)))
}

proof fn lemma_property_names()
    ensures
        name_bytes("the-property-in"@) == property_in(),
        name_bytes("the-property-out"@) == property_out(),
{
    reveal_strlit("the-property-in");
    reveal_strlit("the-property-out");
    vstd::string::is_ascii_spec_bytes("the-property-in");
    vstd::string::is_ascii_spec_bytes("the-property-out");
    assert(vstd::string::is_ascii("the-property-in"));
    assert(vstd::string::is_ascii("the-property-out"));
    assert("the-property-in".spec_bytes() =~= property_in());
    assert("the-property-out".spec_bytes() =~= property_out());
}

/// `String::from_utf8`: the text that `bytes` encode, where they are valid
/// UTF-8, and nothing where they are not. The contract takes from the
/// documentation that the call fails exactly on bytes that are not UTF-8 and
/// that the text it returns is made of these very bytes. Nothing here is
/// proved.
#[verifier::external_body]
fn text_of(bytes: Vec<u8>) -> (text: Option<String>)
    ensures
        text.is_some() == vstd::utf8::valid_utf8(bytes@),
        match text {
            Some(t) => vstd::utf8::encode_utf8(t@) == bytes@,
            None => true,
        },
{
    match String::from_utf8(bytes) {
        Ok(text) => Some(text),
        Err(_) => None,
    }
}

/// `str::to_uppercase`: the upper-case form of `text`. The contract only
/// names the result, which is a function of the text alone. Nothing here is
/// proved.
#[verifier::external_body]
fn uppercase_of(text: &String) -> (upper: String)
    ensures
        upper@ == uppercase(text@),
{
    text.to_uppercase()
}

/// A vector that holds `first` and then `second`.
pub fn join(first: &Vec<u8>, second: &Vec<u8>) -> (joined: Vec<u8>)
    ensures
        joined@ == first@ + second@,
{
    let mut joined: Vec<u8> = Vec::new();
    let mut i: usize = 0;
    while i < first.len()
        invariant
            i <= first@.len(),
            joined@ == first@.subrange(0, i as int),
        decreases first@.len() - i,
    {
        joined.push(first[i]);
        i += 1;
        proof {
            assert(joined@ =~= first@.subrange(0, i as int));
        }
    }
    let mut j: usize = 0;
    while j < second.len()
        invariant
            j <= second@.len(),
            joined@ == first@ + second@.subrange(0, j as int),
        decreases second@.len() - j,
    {
        joined.push(second[j]);
        j += 1;
        proof {
            assert(joined@ =~= first@ + second@.subrange(0, j as int));
        }
    }
    proof {
        assert(joined@ =~= first@ + second@);
    }
    joined
}

/// Reads the payload out of the record and releases the buffer it came in.
fn take_value(record: &Record, memory: &mut LinearMemory) -> (data: Vec<u8>)
    requires
        record.wf(),
        old(memory).wf(),
        old(memory).spec_top() + record@.value.len() <= u32::MAX,
    ensures
        data@ == record@.value,
        final(memory).wf(),
        final(memory)@ == old(memory)@,
{
    let buffer = get_record_value(record, memory);
    let data: Vec<u8> = memory.read(buffer.address, buffer.length);
    let (address, length) = buffer.into_raw_parts();
    memory.release(address, length);
    proof {
        assert(memory@ =~= old(memory)@);
    }
    data
}

/// Makes `data` the record's payload: puts it in a buffer, sets the payload
/// from the buffer and releases the buffer.
pub fn put_value(record: &mut Record, memory: &mut LinearMemory, data: &Vec<u8>)
    requires
        old(record).wf(),
        old(memory).wf(),
        old(memory).spec_top() + data@.len() <= u32::MAX,
    ensures
        final(record).wf(),
        final(record)@ == old(record)@.with_value(data@),
        final(memory).wf(),
        final(memory)@ == old(memory)@,
{
    let buffer = memory.store(data);
    set_record_value(record, memory, &buffer);
    let (address, length) = buffer.into_raw_parts();
    memory.release(address, length);
    proof {
        assert(memory@ =~= old(memory)@);
    }
}

/// Routes the record to the topic that `data` names: puts it in a buffer,
/// sets the destination from the buffer and releases the buffer.
pub fn put_destination(record: &mut Record, memory: &mut LinearMemory, data: &Vec<u8>)
    requires
        old(record).wf(),
        old(memory).wf(),
        old(memory).spec_top() + data@.len() <= u32::MAX,
    ensures
        final(record).wf(),
        final(record)@ == old(record)@.with_destination_topic(data@),
        final(memory).wf(),
        final(memory)@ == old(memory)@,
{
    let buffer = memory.store(data);
    set_destination_topic(record, memory, &buffer);
    let (address, length) = buffer.into_raw_parts();
    memory.release(address, length);
    proof {
        assert(memory@ =~= old(memory)@);
    }
}

/// Whether `to_upper` has a text to work on and room for its result.
pub open spec fn can_upper(record: RecordView, top: int) -> bool {
    vstd::utf8::valid_utf8(record.value) && top + upper_bytes(record.value).len() <= u32::MAX
}

/// Replaces the payload, read as UTF-8 text, with its upper-case form. The
/// result says whether that was done: it was not, and the record is as it
/// was, where the payload is not UTF-8 or the memory has no room for the
/// upper-case text. A guest has no way on from there but to abort.
pub fn to_upper(record: &mut Record, memory: &mut LinearMemory) -> (done: bool)
    requires
        old(record).wf(),
        old(memory).wf(),
        old(memory).spec_top() + old(record)@.value.len() <= u32::MAX,
    ensures
        done == can_upper(old(record)@, old(memory).spec_top()),
        final(record).wf(),
        done ==> final(record)@ == old(record)@.with_value(upper_bytes(old(record)@.value)),
        !done ==> final(record)@ == old(record)@,
        final(memory).wf(),
        final(memory)@ == old(memory)@,
{
    let data: Vec<u8> = take_value(record, memory);
    match text_of(data) {
        Some(text) => {
            proof {
                vstd::utf8::encode_utf8_decode_utf8(text@);
            }
            let upper: String = uppercase_of(&text);
            let out: Vec<u8> = upper.as_str().as_bytes_vec();
            if out.len() <= memory.remaining() as usize {
                put_value(record, memory, &out);
                true
            } else {
                false
            }
        },
        None => false,
    }
}

/// Whether `cbr` has a text to work on and room for the destination's name.
pub open spec fn can_route(record: RecordView, top: int) -> bool {
    vstd::utf8::valid_utf8(record.value) && top + 7 + record.value.len() <= u32::MAX
}

/// Routes the record by its content: the destination becomes `output-`
/// followed by the payload. The result says whether that was done: it was
/// not, and the record is as it was, where the payload is not UTF-8 or the
/// memory has no room for the destination's name.
pub fn cbr(record: &mut Record, memory: &mut LinearMemory) -> (done: bool)
    requires
        old(record).wf(),
        old(memory).wf(),
        old(memory).spec_top() + old(record)@.value.len() <= u32::MAX,
    ensures
        done == can_route(old(record)@, old(memory).spec_top()),
        final(record).wf(),
        done ==> final(record)@ == old(record)@.with_destination_topic(
            output_prefix() + old(record)@.value,
        ),
        !done ==> final(record)@ == old(record)@,
        final(memory).wf(),
        final(memory)@ == old(memory)@,
{
    let data: Vec<u8> = take_value(record, memory);
    let prefix: Vec<u8> = vec![111u8, 117u8, 116u8, 112u8, 117u8, 116u8, 45u8];
    proof {
        assert(prefix@ =~= output_prefix());
    }
    let out: Vec<u8> = join(&prefix, &data);
    match text_of(data) {
        Some(_) => {
            if out.len() <= memory.remaining() as usize {
                put_destination(record, memory, &out);
                true
            } else {
                false
            }
        },
        None => false,
    }
}

/// Makes the record's payload its key.
pub fn value_to_key(record: &mut Record, memory: &mut LinearMemory)
    requires
        old(record).wf(),
        old(memory).wf(),
        old(memory).spec_top() + old(record)@.value.len() <= u32::MAX,
    ensures
        final(record).wf(),
        final(record)@ == old(record)@.with_key(old(record)@.value),
        final(memory).wf(),
        final(memory)@ == old(memory)@,
{
    let buffer = get_record_value(record, memory);
    set_record_key(record, memory, &buffer);
    let (address, length) = buffer.into_raw_parts();
    memory.release(address, length);
    proof {
        assert(memory@ =~= old(memory)@);
    }
}

/// Makes the value of the property `the-key` the record's key; the key
/// becomes empty where the record has no such property.
pub fn header_to_key(record: &mut Record, memory: &mut LinearMemory)
    requires
        old(record).wf(),
        old(memory).wf(),
        old(memory).spec_top() + 7 + old(record)@.property_bytes(key_header()).len() <= u32::MAX,
    ensures
        final(record).wf(),
        final(record)@ == old(record)@.with_key(old(record)@.property_bytes(key_header())),
        final(memory).wf(),
        final(memory)@ == old(memory)@,
{
    proof {
        lemma_key_header();
    }
    let buffer = get_record_property(record, memory, String::from_str("the-key"));
    set_record_key(record, memory, &buffer);
    let (address, length) = buffer.into_raw_parts();
    memory.release(address, length);
    proof {
        assert(memory@ =~= old(memory)@);
    }
}

/// Copies the value of the property `the-property-in` to the property
/// `the-property-out`, which becomes empty where the record has no property
/// of the first name.
pub fn copy_property(record: &mut Record, memory: &mut LinearMemory)
    requires
        old(record).wf(),
        old(memory).wf(),
        old(memory).spec_top() + 15 + old(record)@.property_bytes(property_in()).len()
            <= u32::MAX,
        old(memory).spec_top() + 16 <= u32::MAX,
        old(record)@.property_bytes(property_in()).len() > 0 ==> old(memory).spec_top() + 15
            + old(record)@.property_bytes(property_in()).len() + 16 <= u32::MAX,
    ensures
        final(record).wf(),
        final(record)@ == old(record)@.with_property(
            property_out(),
            old(record)@.property_bytes(property_in()),
        ),
        final(memory).wf(),
        final(memory)@ == old(memory)@,
{
    proof {
        lemma_property_names();
    }
    let buffer = get_record_property(record, memory, String::from_str("the-property-in"));
    set_record_property(record, memory, String::from_str("the-property-out"), &buffer);
    let (address, length) = buffer.into_raw_parts();
    memory.release(address, length);
    proof {
        assert(memory@ =~= old(memory)@);
    }
}

} // verus!
