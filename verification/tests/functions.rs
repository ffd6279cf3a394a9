use guest_bridge::functions::{
    cbr, copy_property, header_to_key, join, put_destination, put_value, to_upper, value_to_key,
};
use guest_bridge::accessors::set_record_property;
use guest_bridge::memory::LinearMemory;
use guest_bridge::record::Record;

fn with_property(record: &mut Record, memory: &mut LinearMemory, name: &str, value: &[u8]) {
    let buffer = memory.store(&value.to_vec());
    set_record_property(record, memory, name.to_string(), &buffer);
    let (address, length) = buffer.into_raw_parts();
    memory.release(address, length);
}

#[test]
fn to_upper_makes_hello_upper_case() {
    let mut memory = LinearMemory::new();
    let mut record = Record::new(b"hello".to_vec(), Vec::new());
    assert!(to_upper(&mut record, &mut memory));
    assert_eq!(record.value(), &b"HELLO".to_vec());
    assert_eq!(memory.live(), 0);
}

#[test]
fn to_upper_goes_by_characters() {
    let mut memory = LinearMemory::new();
    let mut record = Record::new("straße é1".as_bytes().to_vec(), Vec::new());
    assert!(to_upper(&mut record, &mut memory));
    assert_eq!(record.value(), &"STRASSE É1".as_bytes().to_vec());
}

#[test]
fn to_upper_leaves_what_is_no_text() {
    let mut memory = LinearMemory::new();
    let mut record = Record::new(vec![0x68, 0xff, 0x69], Vec::new());
    assert!(!to_upper(&mut record, &mut memory));
    assert_eq!(record.value(), &vec![0x68, 0xff, 0x69]);
    assert_eq!(memory.live(), 0);
}

#[test]
fn to_upper_of_nothing_is_nothing() {
    let mut memory = LinearMemory::new();
    let mut record = Record::new(Vec::new(), Vec::new());
    assert!(to_upper(&mut record, &mut memory));
    assert_eq!(record.value(), &Vec::<u8>::new());
}

#[test]
fn value_to_key_copies_the_value() {
    let mut memory = LinearMemory::new();
    let mut record = Record::new(b"abc".to_vec(), Vec::new());
    assert_eq!(record.key(), None);
    value_to_key(&mut record, &mut memory);
    assert_eq!(record.key(), Some(&b"abc".to_vec()));
    assert_eq!(record.value(), &b"abc".to_vec());
    assert_eq!(memory.live(), 0);
    assert_eq!(memory.remaining(), u32::MAX);
}

#[test]
fn header_to_key_reads_the_key_property() {
    let mut memory = LinearMemory::new();
    let mut record = Record::new(b"v".to_vec(), Vec::new());
    with_property(&mut record, &mut memory, "the-key", b"k1");
    with_property(&mut record, &mut memory, "the-other", b"k2");
    header_to_key(&mut record, &mut memory);
    assert_eq!(record.key(), Some(&b"k1".to_vec()));
    assert_eq!(memory.live(), 0);
}

#[test]
fn header_to_key_without_the_property_gives_an_empty_key() {
    let mut memory = LinearMemory::new();
    let mut record = Record::new(b"v".to_vec(), Vec::new());
    header_to_key(&mut record, &mut memory);
    assert_eq!(record.key(), Some(&Vec::new()));
    assert_eq!(memory.remaining(), u32::MAX);
}

#[test]
fn copy_property_copies_in_to_out() {
    let mut memory = LinearMemory::new();
    let mut record = Record::new(Vec::new(), Vec::new());
    with_property(&mut record, &mut memory, "the-property-in", b"x");
    let before = memory.remaining();
    copy_property(&mut record, &mut memory);
    assert_eq!(record.property(&b"the-property-out".to_vec()), Some(&b"x".to_vec()));
    assert_eq!(record.property(&b"the-property-in".to_vec()), Some(&b"x".to_vec()));
    assert_eq!(memory.live(), 0);
    assert_eq!(memory.remaining(), before);
}

#[test]
fn cbr_routes_by_content() {
    let mut memory = LinearMemory::new();
    let mut record = Record::new(b"abc".to_vec(), b"source".to_vec());
    assert_eq!(record.destination_topic(), None);
    assert!(cbr(&mut record, &mut memory));
    assert_eq!(record.destination_topic(), Some(&b"output-abc".to_vec()));
    assert_eq!(record.value(), &b"abc".to_vec());
    assert_eq!(memory.live(), 0);
    assert_eq!(memory.remaining(), u32::MAX);
}

#[test]
fn cbr_leaves_what_is_no_text() {
    let mut memory = LinearMemory::new();
    let mut record = Record::new(vec![0xc3, 0x28], Vec::new());
    assert!(!cbr(&mut record, &mut memory));
    assert_eq!(record.destination_topic(), None);
}

#[test]
fn put_value_and_destination() {
    let mut memory = LinearMemory::new();
    let mut record = Record::new(b"old".to_vec(), Vec::new());
    put_value(&mut record, &mut memory, &b"new".to_vec());
    put_destination(&mut record, &mut memory, &b"there".to_vec());
    assert_eq!(record.value(), &b"new".to_vec());
    assert_eq!(record.destination_topic(), Some(&b"there".to_vec()));
    assert_eq!(memory.live(), 0);
    assert_eq!(memory.remaining(), u32::MAX);
}

#[test]
fn join_puts_one_after_the_other() {
    assert_eq!(join(&b"ab".to_vec(), &b"cd".to_vec()), b"abcd".to_vec());
    assert_eq!(join(&Vec::new(), &b"cd".to_vec()), b"cd".to_vec());
    assert_eq!(join(&b"ab".to_vec(), &Vec::new()), b"ab".to_vec());
}
