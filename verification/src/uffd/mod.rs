//! Demand paging with `userfaultfd`: the ABI, the decisions of a fault handler, and where to put it.

pub mod sweep;
pub mod topology;
pub mod uffd;
pub mod uffd_sys;
