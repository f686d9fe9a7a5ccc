//! Discovery decisions: memory ranges, device identifiers, failures.

use ceno_boot::discovery::{
    select_boot_devices, trim_device_id, BlockDeviceProbe, DiscoveryError, PhysicalMemory,
};

fn dev(id: &[u8], base: u64) -> BlockDeviceProbe {
    let mut device_id = id.to_vec();
    device_id.resize(20, 0);
    BlockDeviceProbe { device_id, base_address: base, size: 0x1000 }
}

#[test]
fn scenario_no_block_device_halts_before_loading() {
    // a memory node alone is not enough: discovery fails before any image
    // byte is touched
    let memory = vec![PhysicalMemory { base_address: 0x8000_0000, size: 0x1000_0000 }];
    let devices: Vec<BlockDeviceProbe> = Vec::new();
    assert_eq!(
        select_boot_devices(&memory, &devices),
        Err(DiscoveryError::NoBootDevice)
    );
}

#[test]
fn missing_memory_is_fatal_first() {
    let memory: Vec<PhysicalMemory> = Vec::new();
    let devices = vec![dev(b"CENO-GUEST-ELF", 0x1000_1000)];
    assert_eq!(select_boot_devices(&memory, &devices), Err(DiscoveryError::NoMemory));
    let zero_sized = vec![PhysicalMemory { base_address: 0x8000_0000, size: 0 }];
    assert_eq!(
        select_boot_devices(&zero_sized, &devices),
        Err(DiscoveryError::NoMemory)
    );
}

#[test]
fn boot_device_is_selected_by_identifier() {
    let memory = vec![PhysicalMemory { base_address: 0x8000_0000, size: 0x1000_0000 }];
    let devices = vec![dev(b"SOME-OTHER-DISK", 0x1000_1000), dev(b"CENO-GUEST-ELF", 0x1000_2000)];
    let (mem, idx) = select_boot_devices(&memory, &devices).unwrap();
    assert_eq!(mem.base_address, 0x8000_0000);
    assert_eq!(mem.size, 0x1000_0000);
    assert_eq!(idx, 1);
}

#[test]
fn last_matching_device_wins() {
    let memory = vec![
        PhysicalMemory { base_address: 0x4000_0000, size: 0x800_0000 },
        PhysicalMemory { base_address: 0x8000_0000, size: 0x1000_0000 },
    ];
    let devices = vec![dev(b"CENO-GUEST-ELF", 0x1000_1000), dev(b"CENO-GUEST-ELF", 0x1000_2000)];
    let (mem, idx) = select_boot_devices(&memory, &devices).unwrap();
    // both the memory range and the device are the last ones seen
    assert_eq!(mem.base_address, 0x8000_0000);
    assert_eq!(idx, 1);
}

#[test]
fn identifier_padding_is_trimmed() {
    let padded = vec![65u8, 66, 0, 0, 0];
    assert_eq!(trim_device_id(&padded), vec![65u8, 66]);
    let zeros = vec![0u8; 4];
    assert_eq!(trim_device_id(&zeros), Vec::<u8>::new());
    let inner = vec![65u8, 0, 66];
    assert_eq!(trim_device_id(&inner), vec![65u8, 0, 66]);
}
