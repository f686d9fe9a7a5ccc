//! Discovery decisions: which physical memory range and which block device
//! the boot uses, out of what the hardware-description walk reported.
//!
//! The walk itself — parsing the description blob and probing each
//! transport — happens outside; it hands over plain values: every memory
//! `reg` pair it saw, in order, and every block device it probed, with the
//! identifier bytes the device reported. As in the walk, the last value
//! seen wins.

use vstd::prelude::*;

verus! {

/// A physical memory range reported by the hardware description.
#[derive(Clone, Copy, PartialEq, Eq, Structural, Debug, Default)]
pub struct PhysicalMemory {
    /// First byte of the range.
    pub base_address: u64,
    /// Length of the range in bytes.
    pub size: u64,
}

/// A block device found while probing, with the identifier it reported.
pub struct BlockDeviceProbe {
    /// The device identifier bytes, zero-padded by the hardware.
    pub device_id: Vec<u8>,
    /// Base address of the device's register window.
    pub base_address: u64,
    /// Size of the register window.
    pub size: u64,
}

/// Why discovery failed. Either failure halts the boot.
#[derive(Clone, Copy, PartialEq, Eq, Structural, Debug)]
pub enum DiscoveryError {
    /// No usable memory range was reported: base or size is zero.
    NoMemory,
    /// No probed block device carries the boot-image identifier.
    NoBootDevice,
}

/// The identifier that designates the boot-image device.
pub open spec fn boot_image_id() -> Seq<u8> {
    seq![67u8, 69u8, 78u8, 79u8, 45u8, 71u8, 85u8, 69u8, 83u8, 84u8, 45u8, 69u8, 76u8, 70u8]
}

/// Builds the boot-image identifier, "CENO-GUEST-ELF", as bytes.
pub fn boot_image_id_bytes() -> (v: Vec<u8>)
    ensures
        v@ == boot_image_id(),
{
    let v: Vec<u8> = vec![67u8, 69u8, 78u8, 79u8, 45u8, 71u8, 85u8, 69u8, 83u8, 84u8, 45u8,
        69u8, 76u8, 70u8];
    proof {
        assert(v@ =~= boot_image_id());
    }
    v
}

/// The identifier bytes with their zero padding removed.
pub open spec fn trim_nuls(s: Seq<u8>) -> Seq<u8>
    decreases s.len(),
{
    if s.len() > 0 && s.last() == 0 {
        trim_nuls(s.drop_last())
    } else {
        s
    }
}

/// Strips the trailing zero padding off a reported device identifier.
pub fn trim_device_id(id: &Vec<u8>) -> (r: Vec<u8>)
    ensures
        r@ == trim_nuls(id@),
{
    let mut end = id.len();
    proof {
        assert(id@.subrange(0, id@.len() as int) =~= id@);
    }
    while end > 0 && id[end - 1] == 0
        invariant
            end <= id@.len(),
            trim_nuls(id@) == trim_nuls(id@.subrange(0, end as int)),
        decreases end,
    {
        proof {
            assert(id@.subrange(0, end as int).drop_last() =~= id@.subrange(0, end - 1));
        }
        end = end - 1;
    }
    proof {
        if end > 0 {
            assert(trim_nuls(id@.subrange(0, end as int)) == id@.subrange(0, end as int));
        } else {
            assert(id@.subrange(0, 0) =~= Seq::<u8>::empty());
        }
    }
    let mut r: Vec<u8> = Vec::new();
    let mut j: usize = 0;
    while j < end
        invariant
            j <= end <= id@.len(),
            r@ == id@.subrange(0, j as int),
        decreases end - j,
    {
        r.push(id[j]);
        proof {
            assert(id@.subrange(0, j as int).push(id@[j as int])
                =~= id@.subrange(0, j + 1));
        }
        j = j + 1;
    }
    proof {
        assert(r@ == id@.subrange(0, end as int));
    }
    r
}

/// Compares two byte strings.
pub fn bytes_eq(a: &Vec<u8>, b: &Vec<u8>) -> (r: bool)
    ensures
        r == (a@ == b@),
{
    if a.len() != b.len() {
        proof {
            assert(a@ != b@) by {
                assert(a@.len() != b@.len());
            };
        }
        return false;
    }
    let mut j: usize = 0;
    while j < a.len()
        invariant
            a@.len() == b@.len(),
            j <= a@.len(),
            forall|k: int| 0 <= k < j ==> a@[k] == b@[k],
        decreases a@.len() - j,
    {
        if a[j] != b[j] {
            return false;
        }
        j = j + 1;
    }
    proof {
        assert(a@ =~= b@);
    }
    true
}

/// The memory range the walk settles on: the last `reg` pair seen, or the
/// all-zero default when none was.
pub open spec fn last_memory(regs: Seq<PhysicalMemory>) -> PhysicalMemory {
    if regs.len() == 0 {
        PhysicalMemory { base_address: 0, size: 0 }
    } else {
        regs.last()
    }
}

/// The device's identifier, padding stripped, is the boot-image identifier.
pub open spec fn is_boot_device(d: BlockDeviceProbe) -> bool {
    trim_nuls(d.device_id@) == boot_image_id()
}

/// Settles discovery: the memory range is the last one reported and must be
/// non-zero in both fields, and the boot device is the last probed block
/// device carrying the boot-image identifier. Memory is checked first, as
/// the walk reports it first.
pub fn select_boot_devices(
    memory_regs: &Vec<PhysicalMemory>,
    devices: &Vec<BlockDeviceProbe>,
) -> (r: Result<(PhysicalMemory, usize), DiscoveryError>)
    ensures
        r matches Ok((mem, idx)) ==> {
            &&& mem == last_memory(memory_regs@)
            &&& mem.base_address != 0 && mem.size != 0
            &&& 0 <= idx < devices@.len()
            &&& is_boot_device(devices@[idx as int])
            &&& forall|j: int| idx < j < devices@.len()
                ==> !is_boot_device(#[trigger] devices@[j])
        },
        r == Err::<(PhysicalMemory, usize), DiscoveryError>(DiscoveryError::NoMemory)
            <==> (last_memory(memory_regs@).base_address == 0
                || last_memory(memory_regs@).size == 0),
        r == Err::<(PhysicalMemory, usize), DiscoveryError>(DiscoveryError::NoBootDevice)
            <==> (last_memory(memory_regs@).base_address != 0
                && last_memory(memory_regs@).size != 0
                && forall|j: int| 0 <= j < devices@.len()
                    ==> !is_boot_device(#[trigger] devices@[j])),
{
    let mem = if memory_regs.len() == 0 {
        PhysicalMemory { base_address: 0, size: 0 }
    } else {
        memory_regs[memory_regs.len() - 1]
    };
    if mem.base_address == 0 || mem.size == 0 {
        return Err(DiscoveryError::NoMemory);
    }
    let wanted = boot_image_id_bytes();
    let mut found: Option<usize> = None;
    let mut j: usize = 0;
    while j < devices.len()
        invariant
            wanted@ == boot_image_id(),
            j <= devices@.len(),
            found matches Some(ix) ==> (0 <= ix < j && is_boot_device(devices@[ix as int])
                && forall|k: int| ix < k < j ==> !is_boot_device(#[trigger] devices@[k])),
            found is None ==> forall|k: int| 0 <= k < j
                ==> !is_boot_device(#[trigger] devices@[k]),
        decreases devices@.len() - j,
    {
        let id = trim_device_id(&devices[j].device_id);
        if bytes_eq(&id, &wanted) {
            found = Some(j);
        }
        j = j + 1;
    }
    match found {
        Some(ix) => Ok((mem, ix)),
        None => Err(DiscoveryError::NoBootDevice),
    }
}

} // verus!
