use guest_bridge::codec::{pack, unpack};

#[test]
fn pack_puts_address_high_and_length_low() {
    assert_eq!(pack(1, 2), 0x0000_0001_0000_0002u64);
    assert_eq!(pack(0, 0), 0);
    assert_eq!(pack(0, 5), 5);
    assert_eq!(pack(5, 0), 5u64 << 32);
    assert_eq!(pack(u32::MAX, u32::MAX), u64::MAX);
    assert_eq!(pack(0x1234_5678, 0x9abc_def0), 0x1234_5678_9abc_def0u64);
}

#[test]
fn unpack_shifts_and_truncates() {
    assert_eq!(unpack(0x0000_0001_0000_0002u64), (1, 2));
    assert_eq!(unpack(0), (0, 0));
    assert_eq!(unpack(u64::MAX), (u32::MAX, u32::MAX));
    assert_eq!(unpack(0x1234_5678_9abc_def0u64), (0x1234_5678, 0x9abc_def0));
    assert_eq!(unpack(0xffff_ffffu64), (0, u32::MAX));
    assert_eq!(unpack(0x1_0000_0000u64), (1, 0));
}

#[test]
fn unpack_undoes_pack() {
    let samples: [u32; 9] =
        [0, 1, 2, 255, 256, 65_535, 0x7fff_ffff, 0x8000_0000, u32::MAX];
    for &address in samples.iter() {
        for &length in samples.iter() {
            assert_eq!(unpack(pack(address, length)), (address, length));
        }
    }
}

#[test]
fn pack_undoes_unpack() {
    let samples: [u64; 6] =
        [0, 1, 0xffff_ffff, 0x1_0000_0000, 0x8000_0000_0000_0001, u64::MAX];
    for &handle in samples.iter() {
        let (address, length) = unpack(handle);
        assert_eq!(pack(address, length), handle);
    }
}
