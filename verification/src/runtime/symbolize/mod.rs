//! Symbolization support: DWARF byte readers, the ELF section and
//! symbol tables, and the address-range lookup tables built from them.
pub mod dwarf_util;
pub mod elf;
pub mod symtab;
pub mod keyed;
pub mod aranges;
pub mod demangle;
pub mod v0_spec;
pub mod demangle_v0;
pub mod v0_laws;
pub mod info;
