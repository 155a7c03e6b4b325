//! Windows system information helpers: decoding of the SMBIOS (DMI)
//! firmware table, the `GetSystemInfo` record, and the decisions of the
//! clipboard transfers. The system calls themselves are made by the caller.

pub mod clipboard;
pub mod dmi_string;
pub mod formats;
pub mod smbios;
pub mod text;
pub mod types;
