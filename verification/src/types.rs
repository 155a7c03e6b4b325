use vstd::prelude::*;

verus! {

/// The processor architecture view of the first field of `SYSTEM_INFO`.
#[derive(Debug, Clone, Copy, PartialEq, Eq, Structural, PartialOrd, Ord, Hash)]
pub struct SystemInfoDummyStruct {
    pub w_processor_architecture: u16,
    pub w_reserved: u16,
}

/// The first field of `SYSTEM_INFO`: four bytes that Windows lets callers
/// read either as an OEM identifier or as a [`SystemInfoDummyStruct`].
/// The bytes are held as the OEM identifier; the structure view is the
/// little-endian split of it into two halves.
#[derive(Clone, Copy, PartialEq, Eq, Structural)]
pub struct SystemInfoDummyUnion {
    pub dw_oem_id: u32,
}

impl SystemInfoDummyUnion {
    /// The union read through its structure member.
    pub fn dummy_struct(&self) -> (s: SystemInfoDummyStruct)
        ensures
            s.w_processor_architecture == self.dw_oem_id % 0x10000,
            s.w_reserved == self.dw_oem_id / 0x10000,
    {
        SystemInfoDummyStruct {
            w_processor_architecture: (self.dw_oem_id % 0x10000) as u16,
            w_reserved: (self.dw_oem_id / 0x10000) as u16,
        }
    }

    /// The union written through its structure member.
    pub fn from_dummy_struct(s: SystemInfoDummyStruct) -> (u: SystemInfoDummyUnion)
        ensures
            u.dw_oem_id == s.w_processor_architecture + 0x10000 * s.w_reserved,
    {
        SystemInfoDummyUnion {
            dw_oem_id: s.w_processor_architecture as u32 + 0x10000u32 * (s.w_reserved as u32),
        }
    }
}

/// Reading the union through its structure member and writing that
/// structure back gives the same four bytes.
pub proof fn lemma_dummy_union_roundtrip(oem: u32)
    ensures
        (oem % 0x10000) + 0x10000 * (oem / 0x10000) == oem,
{
}

/// Writing a structure into the union and reading it back gives the same
/// structure.
pub proof fn lemma_dummy_struct_roundtrip(arch: u16, reserved: u16)
    ensures
        ((arch + 0x10000 * reserved) % 0x10000) == arch,
        ((arch + 0x10000 * reserved) / 0x10000) == reserved,
{
    assert(((arch + 0x10000 * reserved) % 0x10000) == arch && ((arch + 0x10000 * reserved)
        / 0x10000) == reserved) by (nonlinear_arith)
        requires
            arch < 0x10000,
    ;
}

/// What `GetSystemInfo` reports about the machine. Addresses are held as
/// plain numbers.
#[derive(Clone, Copy)]
pub struct SystemInfo {
    pub dummy_union: SystemInfoDummyUnion,
    pub dw_page_size: u32,
    pub lp_minimum_application_address: usize,
    pub lp_maximum_application_address: usize,
    pub dw_active_processor_mask: usize,
    pub dw_number_of_processors: u32,
    pub dw_processor_type: u32,
    pub dw_allocation_granularity: u32,
    pub w_processor_level: u16,
    pub w_processor_revision: u16,
}

/// Firmware and system identification read from the SMBIOS tables.
#[derive(Debug, PartialEq, Eq, PartialOrd, Ord, Hash)]
pub struct DmiInformation {
    pub bios_version: String,
    pub bios_release_date: String,
    pub bios_vendor: String,
    pub bios_embedded_controller_firmware_version: String,
    pub system_manufacturer: String,
    pub system_product: String,
    pub system_version: String,
    pub system_serial_number: String,
    pub system_uuid: ([u8; 16], String),
    pub system_guid: ([u8; 16], String),
    pub system_sku_number: String,
    pub system_family: String,
}

/// The contents of a [`DmiInformation`], as sequences.
pub struct DmiModel {
    pub bios_version: Seq<char>,
    pub bios_release_date: Seq<char>,
    pub bios_vendor: Seq<char>,
    pub bios_embedded_controller_firmware_version: Seq<char>,
    pub system_manufacturer: Seq<char>,
    pub system_product: Seq<char>,
    pub system_version: Seq<char>,
    pub system_serial_number: Seq<char>,
    pub system_uuid: (Seq<u8>, Seq<char>),
    pub system_guid: (Seq<u8>, Seq<char>),
    pub system_sku_number: Seq<char>,
    pub system_family: Seq<char>,
}

impl View for DmiInformation {
    type V = DmiModel;

    open spec fn view(&self) -> DmiModel {
        DmiModel {
            bios_version: self.bios_version@,
            bios_release_date: self.bios_release_date@,
            bios_vendor: self.bios_vendor@,
            bios_embedded_controller_firmware_version:
                self.bios_embedded_controller_firmware_version@,
            system_manufacturer: self.system_manufacturer@,
            system_product: self.system_product@,
            system_version: self.system_version@,
            system_serial_number: self.system_serial_number@,
            system_uuid: (self.system_uuid.0@, self.system_uuid.1@),
            system_guid: (self.system_guid.0@, self.system_guid.1@),
            system_sku_number: self.system_sku_number@,
            system_family: self.system_family@,
        }
    }
}

/// The model of a [`DmiInformation`] in which nothing was found: empty
/// strings and all-zero identifiers.
pub open spec fn empty_dmi_model() -> DmiModel {
    DmiModel {
        bios_version: seq![],
        bios_release_date: seq![],
        bios_vendor: seq![],
        bios_embedded_controller_firmware_version: seq![],
        system_manufacturer: seq![],
        system_product: seq![],
        system_version: seq![],
        system_serial_number: seq![],
        system_uuid: (Seq::new(16, |i: int| 0u8), seq![]),
        system_guid: (Seq::new(16, |i: int| 0u8), seq![]),
        system_sku_number: seq![],
        system_family: seq![],
    }
}

impl Clone for DmiInformation {
    fn clone(&self) -> (c: DmiInformation)
        ensures
            c@ == self@,
    {
        DmiInformation {
            bios_version: self.bios_version.clone(),
            bios_release_date: self.bios_release_date.clone(),
            bios_vendor: self.bios_vendor.clone(),
            bios_embedded_controller_firmware_version:
                self.bios_embedded_controller_firmware_version.clone(),
            system_manufacturer: self.system_manufacturer.clone(),
            system_product: self.system_product.clone(),
            system_version: self.system_version.clone(),
            system_serial_number: self.system_serial_number.clone(),
            system_uuid: (self.system_uuid.0, self.system_uuid.1.clone()),
            system_guid: (self.system_guid.0, self.system_guid.1.clone()),
            system_sku_number: self.system_sku_number.clone(),
            system_family: self.system_family.clone(),
        }
    }
}

impl Default for DmiInformation {
    fn default() -> (d: DmiInformation)
        ensures
            d@ == empty_dmi_model(),
    {
        let d = DmiInformation {
            bios_version: String::new(),
            bios_release_date: String::new(),
            bios_vendor: String::new(),
            bios_embedded_controller_firmware_version: String::new(),
            system_manufacturer: String::new(),
            system_product: String::new(),
            system_version: String::new(),
            system_serial_number: String::new(),
            system_uuid: ([0u8; 16], String::new()),
            system_guid: ([0u8; 16], String::new()),
            system_sku_number: String::new(),
            system_family: String::new(),
        };
        assert(d.system_uuid.0@ =~= Seq::new(16, |i: int| 0u8));
        assert(d.system_guid.0@ =~= Seq::new(16, |i: int| 0u8));
        d
    }
}

} // verus!
