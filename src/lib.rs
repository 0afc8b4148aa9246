//! Flattened-device-tree handling for a hypervisor's boot path: the cell codec,
//! the boot-fact extractors and the guarded map / patch / unmap protocol.
pub mod codec;
pub mod tree;
pub mod boot;
pub mod mm;
pub mod lifecycle;
pub mod boundary;
