//! Hardware drivers. Each is written as a machine that says which port access
//! comes next and takes the byte that was read; the accesses themselves are made
//! by whoever runs it.
pub mod mouse;
pub mod pci;
pub mod pit;
pub mod rtc;
pub mod rtl8139;
