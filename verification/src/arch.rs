//! The machine's tables, registers and vectors.
pub mod acpi;
pub mod apic;
pub mod pci;
pub mod legacy;
pub mod trap;
