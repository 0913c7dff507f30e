//! Verified models of three small pieces of a virtual machine monitor.
//!
//! * `kvm` - a minimal monitor: bringing a virtual machine up, servicing its exits, its devices and
//!   its guests.
//! * `virtq` - the split virtqueue: shared memory, ring layout, the driver half and the device half,
//!   and the device half once more on the crates `virtio-queue` and `vm-memory`.
//! * `uffd` - demand paging: the decisions of a fault handler, and where to put it.
//!
//! Beside them stand `stats` and `text`, which the measurements are reported with, and `le`, the
//! little-endian fields that all three share.
//!
//! Nothing here makes a system call. What the kernel is asked, and what is made of its answers, is
//! decided here; asking it is left to the program around the library.

pub mod kvm;
pub mod le;
pub mod stats;
pub mod text;
pub mod uffd;
pub mod virtq;
