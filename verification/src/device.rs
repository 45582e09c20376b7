//! What the driver decides before and around a session.
use crate::client::{VM_END, VM_KERNEL_MIN_SIZE};
use crate::error::Error;
use vstd::prelude::*;

verus! {

/// Fewest blocks of a vertex buffer that can be asked for.
pub const MIN_TVB_BLOCKS: u32 = 11;

/// Most blocks of a vertex buffer that can be asked for.
pub const MAX_TVB_BLOCKS: u32 = 331;

/// What a client can ask about the device.
#[derive(Clone, Copy, Debug, PartialEq, Eq, Structural)]
pub struct GlobalParams {
    pub features: u64,
    pub gpu_generation: u32,
    pub gpu_variant: u32,
    pub gpu_revision: u32,
    pub chip_id: u32,
    pub num_dies: u32,
    pub num_clusters_total: u32,
    pub num_cores_per_cluster: u32,
    pub max_frequency_khz: u32,
    /// The cores of the only cluster.
    pub core_mask: u64,
    pub vm_start: u64,
    pub vm_end: u64,
    pub vm_kernel_min_size: u64,
    pub max_commands_per_submission: u32,
    pub max_attachments: u32,
    pub command_timestamp_frequency_hz: u64,
}

/// Checks the largest size of vertex buffers.
pub fn check_tvb_limit(blocks: u32) -> (out: Result<(), Error>)
    ensures
        out == if MIN_TVB_BLOCKS <= blocks <= MAX_TVB_BLOCKS {
            Ok::<(), Error>(())
        } else {
            Err(Error::EINVAL)
        },
{
    if blocks < MIN_TVB_BLOCKS || blocks > MAX_TVB_BLOCKS {
        return Err(Error::EINVAL);
    }
    Ok(())
}

/// Checks the identification of the device: all zeros or all ones come from a device that is not there.
pub fn check_version(version: u32) -> (out: Result<(), Error>)
    ensures
        out == if version == 0 || version == u32::MAX {
            Err::<(), Error>(Error::ENODEV)
        } else {
            Ok(())
        },
{
    if version == 0 || version == u32::MAX {
        return Err(Error::ENODEV);
    }
    Ok(())
}

/// What a client is told about the device.
pub fn get_params(group: u32, pad: u32, max_frequency_khz: u32, core_mask: u32) -> (out: Result<
    GlobalParams,
    Error,
>)
    ensures
        if group != 0 || pad != 0 {
            out is Err && out->Err_0 == Error::EINVAL
        } else {
            out is Ok && out->Ok_0 == (GlobalParams {
                features: 0,
                gpu_generation: 16,
                gpu_variant: 0x47,
                gpu_revision: 0,
                chip_id: 0x8132,
                num_dies: 1,
                num_clusters_total: 1,
                num_cores_per_cluster: 10,
                max_frequency_khz,
                core_mask: core_mask as u64,
                vm_start: 0x4000,
                vm_end: VM_END,
                vm_kernel_min_size: VM_KERNEL_MIN_SIZE,
                max_commands_per_submission: 64,
                max_attachments: 16,
                command_timestamp_frequency_hz: 1_000_000_000,
            })
        },
{
    if group != 0 || pad != 0 {
        return Err(Error::EINVAL);
    }
    Ok(
        GlobalParams {
            features: 0,
            gpu_generation: 16,
            gpu_variant: 0x47,
            gpu_revision: 0,
            chip_id: 0x8132,
            num_dies: 1,
            num_clusters_total: 1,
            num_cores_per_cluster: 10,
            max_frequency_khz,
            core_mask: core_mask as u64,
            vm_start: 0x4000,
            vm_end: VM_END,
            vm_kernel_min_size: VM_KERNEL_MIN_SIZE,
            max_commands_per_submission: 64,
            max_attachments: 16,
            command_timestamp_frequency_hz: 1_000_000_000,
        },
    )
}

/// How many bytes of a record a client gets: as many as there are, or as it has room for.
pub fn answer_size(available: usize, asked: u64) -> (out: usize)
    ensures
        out == if available <= asked {
            available as int
        } else {
            asked as int
        },
{
    if available as u64 <= asked {
        available
    } else {
        asked as usize
    }
}

/// What a wait for a fence gave: an error number, nothing in time, or the time that was left.
pub fn fence_outcome(result: i64) -> (out: Result<(), Error>)
    requires
        i32::MIN <= result,
    ensures
        out == if result < 0 {
            Err::<(), Error>(Error::Other(result as i32))
        } else if result == 0 {
            Err(Error::ETIMEDOUT)
        } else {
            Ok(())
        },
{
    if result < 0 {
        return Err(Error::Other(result as i32));
    }
    if result == 0 {
        return Err(Error::ETIMEDOUT);
    }
    Ok(())
}

} // verus!
