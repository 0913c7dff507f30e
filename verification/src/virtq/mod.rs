//! The split virtqueue, both halves of it, over one region of shared memory.

pub mod mapped;
pub mod mem;
pub mod layout;
pub mod backing;
pub mod batch;
pub mod chain;
pub mod describe;
pub mod device;
pub mod device_laws;
pub mod driver;
pub mod driver_laws;
pub mod hostile;
pub mod laws;
pub mod mapped_laws;
pub mod mock_laws;
pub mod notify;
pub mod pass_laws;
pub mod session;
pub mod session_laws;
