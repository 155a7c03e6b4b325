use aa::dmi_string::{get_string_by_dmi, DmiStringError};
use aa::smbios::{
    dmi_info_from_firmware_table, parse_dmi_info, parse_smbios_table, FirmwareTableError,
    RawSMBIOSData,
};
use aa::types::DmiInformation;

/// A structure: formatted area (type, length, handle, then `fields`), then
/// its strings and the closing double NUL.
fn structure(kind: u8, fields: &[u8], strings: &[&str]) -> Vec<u8> {
    let mut v = vec![kind, (4 + fields.len()) as u8, 0x00, 0x00];
    v.extend_from_slice(fields);
    if strings.is_empty() {
        v.push(0);
    }
    for s in strings {
        v.extend_from_slice(s.as_bytes());
        v.push(0);
    }
    v.push(0);
    v
}

fn bios(vendor: u8, version: u8, date: u8, ec_major: u8, ec_minor: u8, strings: &[&str]) -> Vec<u8> {
    let mut f = vec![0u8; 0x18 - 4];
    f[0] = vendor;
    f[1] = version;
    f[4] = date;
    f[0x16 - 4] = ec_major;
    f[0x17 - 4] = ec_minor;
    structure(0, &f, strings)
}

fn system(uuid: [u8; 16], strings: &[&str]) -> Vec<u8> {
    let mut f = vec![0u8; 0x1B - 4];
    f[0] = 1;
    f[1] = 2;
    f[2] = 3;
    f[3] = 4;
    f[4..20].copy_from_slice(&uuid);
    f[0x19 - 4] = 5;
    f[0x1A - 4] = 6;
    structure(1, &f, strings)
}

fn firmware_buffer(table: &[u8]) -> Vec<u8> {
    let len = table.len() as u32;
    let mut b = vec![0, 3, 4, 0];
    b.extend_from_slice(&len.to_le_bytes());
    b.extend_from_slice(table);
    b
}

const UUID: [u8; 16] = [
    0x00, 0x11, 0x22, 0x33, 0x44, 0x55, 0x66, 0x77, 0x88, 0x99, 0xAA, 0xBB, 0xCC, 0xDD, 0xEE, 0xFF,
];

fn sample_table() -> Vec<u8> {
    let mut t = bios(1, 2, 3, 1, 2, &["Vendor Inc.", "1.0.7", "03/14/2022"]);
    t.extend(system(UUID, &["Maker", "Model X", "v2", "SN123", "SKU9", "Family"]));
    t.extend(structure(127, &[], &[]));
    t
}

#[test]
fn reads_strings_by_index() {
    let t = structure(1, &[], &["Foo", "Bar"]);
    assert_eq!(get_string_by_dmi(&t, 0, 1).unwrap(), "Foo");
    assert_eq!(get_string_by_dmi(&t, 0, 2).unwrap(), "Bar");
    assert_eq!(get_string_by_dmi(&t, 0, 3), Err(DmiStringError::Absent));
    assert_eq!(get_string_by_dmi(&t, 0, 0), Err(DmiStringError::Absent));
}

#[test]
fn string_errors() {
    let bad = vec![1, 4, 0, 0, 0xFF, 0xFE, 0, b'O', b'k', 0, 0];
    assert_eq!(get_string_by_dmi(&bad, 0, 1), Err(DmiStringError::InvalidUtf8));
    // Skipped strings are checked as well.
    assert_eq!(get_string_by_dmi(&bad, 0, 2), Err(DmiStringError::InvalidUtf8));
    let unterminated = vec![1, 4, 0, 0, b'A', b'B'];
    assert_eq!(get_string_by_dmi(&unterminated, 0, 1), Err(DmiStringError::Truncated));
    let short = vec![1];
    assert_eq!(get_string_by_dmi(&short, 0, 1), Err(DmiStringError::Truncated));
    let past_end = vec![1, 9, 0, 0];
    assert_eq!(get_string_by_dmi(&past_end, 0, 1), Err(DmiStringError::Truncated));
    let utf8 = structure(1, &[], &["Größe"]);
    assert_eq!(get_string_by_dmi(&utf8, 0, 1).unwrap(), "Größe");
}

#[test]
fn decodes_bios_and_system_structures() {
    let t = sample_table();
    let info = parse_smbios_table(&t, t.len() as u32);
    assert_eq!(info.bios_vendor, "Vendor Inc.");
    assert_eq!(info.bios_version, "1.0.7");
    assert_eq!(info.bios_release_date, "03/14/2022");
    assert_eq!(info.bios_embedded_controller_firmware_version, "1.2");
    assert_eq!(info.system_manufacturer, "Maker");
    assert_eq!(info.system_product, "Model X");
    assert_eq!(info.system_version, "v2");
    assert_eq!(info.system_serial_number, "SN123");
    assert_eq!(info.system_sku_number, "SKU9");
    assert_eq!(info.system_family, "Family");
    assert_eq!(info.system_uuid.0, UUID);
    assert_eq!(info.system_uuid.1, "00112233-44556677-8899AABB-CCDDEEFF");
    assert_eq!(
        info.system_guid.0,
        [0x33, 0x22, 0x11, 0x00, 0x55, 0x44, 0x77, 0x66, 0x88, 0x99, 0xAA, 0xBB, 0xCC, 0xDD, 0xEE, 0xFF]
    );
    assert_eq!(info.system_guid.1, "33221100-5544-7766-8899-AABBCCDDEEFF");
}

#[test]
fn guid_is_uuid_in_guid_order() {
    let t = sample_table();
    let info = parse_smbios_table(&t, t.len() as u32);
    let u = info.system_uuid.0;
    let g = info.system_guid.0;
    assert_eq!([g[3], g[2], g[1], g[0], g[5], g[4], g[7], g[6]], u[..8]);
    assert_eq!(g[8..], u[8..]);
}

#[test]
fn placeholder_uuids_are_ignored() {
    for fill in [0x00u8, 0xFF] {
        let t = system([fill; 16], &["Maker"]);
        let info = parse_smbios_table(&t, t.len() as u32);
        assert_eq!(info.system_manufacturer, "Maker");
        assert_eq!(info.system_uuid, ([0u8; 16], String::new()));
        assert_eq!(info.system_guid, ([0u8; 16], String::new()));
    }
}

#[test]
fn embedded_controller_version() {
    let t = bios(1, 0, 0, 200, 10, &["V"]);
    let info = parse_smbios_table(&t, t.len() as u32);
    assert_eq!(info.bios_embedded_controller_firmware_version, "200.10");
    assert_eq!(info.bios_vendor, "V");
    assert_eq!(info.bios_version, "");
    let t = bios(1, 0, 0, 0xFF, 3, &["V"]);
    let info = parse_smbios_table(&t, t.len() as u32);
    assert_eq!(info.bios_embedded_controller_firmware_version, "");
    let t = bios(1, 0, 0, 3, 0xFF, &["V"]);
    let info = parse_smbios_table(&t, t.len() as u32);
    assert_eq!(info.bios_embedded_controller_firmware_version, "");
}

#[test]
fn only_first_bios_structure_counts() {
    let mut t = bios(1, 0, 0, 0xFF, 0xFF, &["First"]);
    t.extend(bios(1, 0, 0, 0xFF, 0xFF, &["Second"]));
    let info = parse_smbios_table(&t, t.len() as u32);
    assert_eq!(info.bios_vendor, "First");
}

#[test]
fn walk_stops_at_short_structure_and_at_length() {
    let mut t = vec![0x85, 0x02, 0, 0, 0, 0];
    t.extend(bios(1, 0, 0, 0xFF, 0xFF, &["Hidden"]));
    let info = parse_smbios_table(&t, t.len() as u32);
    assert_eq!(info, DmiInformation::default());

    let mut t = structure(2, &[0; 4], &["Board"]);
    let first = t.len() as u32;
    t.extend(bios(1, 0, 0, 0xFF, 0xFF, &["Beyond"]));
    let info = parse_smbios_table(&t, first);
    assert_eq!(info.bios_vendor, "");
    let info = parse_smbios_table(&t, t.len() as u32);
    assert_eq!(info.bios_vendor, "Beyond");
}

#[test]
fn system_structure_ends_the_walk() {
    let mut t = system(UUID, &["Maker"]);
    t.extend(bios(1, 0, 0, 0xFF, 0xFF, &["After"]));
    let info = parse_smbios_table(&t, t.len() as u32);
    assert_eq!(info.system_manufacturer, "Maker");
    assert_eq!(info.bios_vendor, "");
}

#[test]
fn short_system_structure_is_skipped() {
    let mut t = structure(1, &[1; 0x14], &["Small"]);
    t.extend(bios(1, 0, 0, 0xFF, 0xFF, &["Later"]));
    let info = parse_smbios_table(&t, t.len() as u32);
    assert_eq!(info.system_manufacturer, "");
    assert_eq!(info.bios_vendor, "Later");
}

#[test]
fn firmware_header_is_little_endian() {
    let buffer = [1u8, 2, 3, 4, 0x78, 0x56, 0x34, 0x12, 9, 8];
    let raw = RawSMBIOSData::from_buffer(&buffer);
    assert_eq!(raw.used20_calling_method, 1);
    assert_eq!(raw.smbiosmajor_version, 2);
    assert_eq!(raw.smbiosminor_version, 3);
    assert_eq!(raw.dmi_revision, 4);
    assert_eq!(raw.length, 0x1234_5678);
    assert_eq!(raw.smbiostable_data, vec![9, 8]);
}

#[test]
fn decodes_firmware_buffer() {
    let buffer = firmware_buffer(&sample_table());
    let info = parse_dmi_info(&buffer);
    assert_eq!(info.system_product, "Model X");
    let n = buffer.len() as u32;
    assert_eq!(dmi_info_from_firmware_table(&buffer, n).unwrap(), info);
    assert_eq!(
        dmi_info_from_firmware_table(&buffer, 0),
        Err(FirmwareTableError::CallFailed)
    );
    assert_eq!(
        dmi_info_from_firmware_table(&buffer, n + 1),
        Err(FirmwareTableError::Overrun)
    );
}

#[test]
fn default_is_empty() {
    let d = DmiInformation::default();
    assert_eq!(d.bios_vendor, "");
    assert_eq!(d.system_uuid, ([0u8; 16], String::new()));
    assert_eq!(d.clone(), d);
}

#[test]
fn empty_string_set_has_no_strings() {
    let t = structure(1, &[], &[]);
    assert_eq!(get_string_by_dmi(&t, 0, 1), Err(DmiStringError::Absent));
    let s = get_string_by_dmi(&sample_table(), 0, 1).unwrap();
    assert!(!s.is_empty() && !s.contains('\0'));
}

#[test]
fn later_structures_have_no_effect() {
    let mut a = system(UUID, &["Maker"]);
    let mut b = a.clone();
    a.extend(bios(1, 0, 0, 1, 2, &["Late BIOS"]));
    b.extend(structure(1, &[7; 0x17], &["Other", "Strings"]));
    b.extend([0xFF, 0x00, 0x13]);
    let ia = parse_smbios_table(&a, a.len() as u32);
    let ib = parse_smbios_table(&b, b.len() as u32);
    assert_eq!(ia, ib);
    assert_eq!(ia.bios_vendor, "");
}
