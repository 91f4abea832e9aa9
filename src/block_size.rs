use vstd::prelude::*;
use crate::volume::VolumeType;

verus! {

/// Read granularity for general-purpose and provisioned-IOPS volumes (256 KiB).
pub const SMALL_BLOCK: u64 = 262144;

/// Read granularity for throughput-optimised and cold volumes (1 MiB).
pub const LARGE_BLOCK: u64 = 1048576;

/// Above this many bytes a volume of unknown type is read in large blocks.
pub const LARGE_VOLUME_BYTES: u64 = 1000000000000;

/// The block size chosen for a device of `file_size` bytes and type `volume_type`.
pub open spec fn auto_block_size(file_size: int, volume_type: VolumeType) -> int {
    match volume_type {
        VolumeType::Gp2 | VolumeType::Gp3 | VolumeType::Io1 | VolumeType::Io2 => SMALL_BLOCK as int,
        VolumeType::St1 | VolumeType::Sc1 => LARGE_BLOCK as int,
        VolumeType::Unknown => if file_size > LARGE_VOLUME_BYTES as int {
            LARGE_BLOCK as int
        } else {
            SMALL_BLOCK as int
        },
    }
}

/// Chooses the read granularity from the volume type, and for an unknown type
/// from the device size.
pub fn determine_block_size(file_size: u64, volume_type: VolumeType) -> (r: u64)
    ensures
        r == auto_block_size(file_size as int, volume_type),
        r > 0,
{
    match volume_type {
        VolumeType::Gp2 | VolumeType::Gp3 | VolumeType::Io1 | VolumeType::Io2 => SMALL_BLOCK,
        VolumeType::St1 | VolumeType::Sc1 => LARGE_BLOCK,
        VolumeType::Unknown => if file_size > LARGE_VOLUME_BYTES {
            LARGE_BLOCK
        } else {
            SMALL_BLOCK
        },
    }
}

/// The block size a job uses: a non-zero `requested` size always wins, and `0`
/// asks for the automatic choice.
pub fn resolve_block_size(requested: u64, file_size: u64, volume_type: VolumeType) -> (r: u64)
    ensures
        requested != 0 ==> r == requested,
        requested == 0 ==> r == auto_block_size(file_size as int, volume_type),
        r > 0,
{
    if requested != 0 {
        requested
    } else {
        determine_block_size(file_size, volume_type)
    }
}

} // verus!
