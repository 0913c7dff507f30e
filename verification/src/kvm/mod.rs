//! A minimal virtual machine monitor on `/dev/kvm`: the ABI, the guest programs, the device model
//! and the decisions of the run loop.

pub mod describe;
pub mod device;
pub mod guest;
pub mod guest_laws;
pub mod kvm_sys;
pub mod vmm;
