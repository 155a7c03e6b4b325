//! Decoding of the raw SMBIOS firmware table into [`DmiInformation`].
use vstd::prelude::*;
use vstd::utf8::decode_utf8;
use crate::dmi_string::{
    agree_below, byte_at, dmi_string, dmi_string_extent, get_string_by_dmi, lemma_agree_at,
    lemma_agree_subrange, lemma_dmi_string_agree, lemma_dmi_string_extent_within_set, max_pos,
    leading_strings, lemma_dmi_string_reads_whole_string,
};
use crate::text::{
    all_ascii, ascii_chars, ascii_string, decimal_byte, hex_byte, hex_pair_value,
    lemma_hex_byte_reads_back, push_decimal_byte, all_decimal_digits, decimal_value,
    lemma_decimal_byte_reads_back,
    push_hex_byte,
};
use crate::types::{DmiInformation, DmiModel, empty_dmi_model};

verus! {

/// Copies of the bytes of a raw SMBIOS firmware table: the header that
/// `GetSystemFirmwareTable` puts in front, then the structure table.
pub struct RawSMBIOSData {
    pub used20_calling_method: u8,
    pub smbiosmajor_version: u8,
    pub smbiosminor_version: u8,
    pub dmi_revision: u8,
    pub length: u32,
    pub smbiostable_data: Vec<u8>,
}

/// A little-endian 32-bit number.
pub open spec fn le_u32(b0: u8, b1: u8, b2: u8, b3: u8) -> int {
    b0 + 0x100 * b1 + 0x10000 * b2 + 0x1000000 * b3
}

impl RawSMBIOSData {
    /// Splits a firmware table buffer into its header fields and the
    /// structure table that follows the eight header bytes.
    pub fn from_buffer(buffer: &[u8]) -> (r: RawSMBIOSData)
        requires
            buffer.len() >= 8,
        ensures
            r.used20_calling_method == buffer@[0],
            r.smbiosmajor_version == buffer@[1],
            r.smbiosminor_version == buffer@[2],
            r.dmi_revision == buffer@[3],
            r.length == le_u32(buffer@[4], buffer@[5], buffer@[6], buffer@[7]),
            r.smbiostable_data@ == buffer@.subrange(8, buffer.len() as int),
    {
        let mut data: Vec<u8> = Vec::new();
        let mut i: usize = 8;
        while i < buffer.len()
            invariant
                8 <= i <= buffer.len(),
                data@ == buffer@.subrange(8, i as int),
            decreases buffer.len() - i,
        {
            data.push(buffer[i]);
            i = i + 1;
            assert(data@ =~= buffer@.subrange(8, i as int));
        }
        let length = buffer[4] as u32 + 0x100u32 * (buffer[5] as u32) + 0x10000u32 * (
        buffer[6] as u32) + 0x1000000u32 * (buffer[7] as u32);
        RawSMBIOSData {
            used20_calling_method: buffer[0],
            smbiosmajor_version: buffer[1],
            smbiosminor_version: buffer[2],
            dmi_revision: buffer[3],
            length,
            smbiostable_data: data,
        }
    }
}

/// The string named by the index byte at offset `off` of the structure at
/// `p`, when the index byte exists and the string can be read.
pub open spec fn found_string(d: Seq<u8>, p: int, off: int) -> Option<Seq<char>> {
    match byte_at(d, p + off) {
        Some(idx) => match dmi_string(d, p, idx) {
            Ok(s) => Some(s),
            Err(_) => None,
        },
        None => None,
    }
}

/// A field keeps its value unless a new one was found.
pub open spec fn or_keep(found: Option<Seq<char>>, old: Seq<char>) -> Seq<char> {
    match found {
        Some(s) => s,
        None => old,
    }
}

/// The embedded controller firmware version `major.minor` of a BIOS
/// structure, present when neither byte is the "not supported" value 0xFF.
pub open spec fn ec_firmware_version(d: Seq<u8>, p: int) -> Option<Seq<char>> {
    match (byte_at(d, p + 0x16), byte_at(d, p + 0x17)) {
        (Some(major), Some(minor)) => if major != 0xFF && minor != 0xFF {
            Some(ascii_chars(decimal_byte(major) + seq![46u8] + decimal_byte(minor)))
        } else {
            None
        },
        _ => None,
    }
}

/// The BIOS Information structure (type 0) at `p`, applied to `m`.
pub open spec fn with_bios_info(d: Seq<u8>, p: int, m: DmiModel) -> DmiModel {
    DmiModel {
        bios_vendor: or_keep(found_string(d, p, 0x4), m.bios_vendor),
        bios_version: or_keep(found_string(d, p, 0x5), m.bios_version),
        bios_release_date: or_keep(found_string(d, p, 0x8), m.bios_release_date),
        bios_embedded_controller_firmware_version: or_keep(
            ec_firmware_version(d, p),
            m.bios_embedded_controller_firmware_version,
        ),
        ..m
    }
}

/// The 16 UUID bytes at offset 8 of the structure at `p`, if the data holds
/// them.
pub open spec fn uuid_at(d: Seq<u8>, p: int) -> Option<Seq<u8>> {
    if 0 <= p && p + 24 <= d.len() {
        Some(d.subrange(p + 8, p + 24))
    } else {
        None
    }
}

/// All-zero and all-0xFF UUIDs mean "not set" / "not present".
pub open spec fn uuid_is_placeholder(u: Seq<u8>) -> bool {
    (forall|i: int| 0 <= i < 16 ==> #[trigger] u[i] == 0) || (forall|i: int|
        0 <= i < 16 ==> #[trigger] u[i] == 0xFF)
}

/// The GUID byte order of a UUID: the first three fields byte-swapped.
pub open spec fn guid_of(u: Seq<u8>) -> Seq<u8> {
    seq![u[3], u[2], u[1], u[0], u[5], u[4], u[7], u[6]] + u.subrange(8, 16)
}

/// Uppercase hexadecimal digits of every byte in order.
pub open spec fn hex_bytes(s: Seq<u8>) -> Seq<u8>
    decreases s.len(),
{
    if s.len() == 0 {
        seq![]
    } else {
        hex_bytes(s.drop_last()) + hex_byte(s.last())
    }
}

/// `XXXXXXXX-XXXXXXXX-XXXXXXXX-XXXXXXXX`: the UUID in four groups of four bytes.
pub open spec fn uuid_text(u: Seq<u8>) -> Seq<u8> {
    hex_bytes(u.subrange(0, 4)) + seq![45u8] + hex_bytes(u.subrange(4, 8)) + seq![45u8]
        + hex_bytes(u.subrange(8, 12)) + seq![45u8] + hex_bytes(u.subrange(12, 16))
}

/// `XXXXXXXX-XXXX-XXXX-XXXX-XXXXXXXXXXXX`: the usual GUID grouping.
pub open spec fn guid_text(g: Seq<u8>) -> Seq<u8> {
    hex_bytes(g.subrange(0, 4)) + seq![45u8] + hex_bytes(g.subrange(4, 6)) + seq![45u8]
        + hex_bytes(g.subrange(6, 8)) + seq![45u8] + hex_bytes(g.subrange(8, 10)) + seq![45u8]
        + hex_bytes(g.subrange(10, 16))
}

/// The System Information structure (type 1) at `p`, applied to `m`.
pub open spec fn with_system_info(d: Seq<u8>, p: int, m: DmiModel) -> DmiModel {
    let m1 = DmiModel {
        system_manufacturer: or_keep(found_string(d, p, 0x4), m.system_manufacturer),
        system_product: or_keep(found_string(d, p, 0x5), m.system_product),
        system_version: or_keep(found_string(d, p, 0x6), m.system_version),
        system_serial_number: or_keep(found_string(d, p, 0x7), m.system_serial_number),
        system_sku_number: or_keep(found_string(d, p, 0x19), m.system_sku_number),
        system_family: or_keep(found_string(d, p, 0x1A), m.system_family),
        ..m
    };
    match uuid_at(d, p) {
        Some(u) => if uuid_is_placeholder(u) {
            m1
        } else {
            DmiModel {
                system_uuid: (u, ascii_chars(uuid_text(u))),
                system_guid: (guid_of(u), ascii_chars(guid_text(guid_of(u)))),
                ..m1
            }
        },
        None => m1,
    }
}

/// Position of the double NUL that ends the string-set scanned from `q`,
/// or `q` itself once it reaches `limit`; `None` when the data ends first.
pub open spec fn structure_end(d: Seq<u8>, limit: int, q: int) -> Option<int>
    decreases limit - q,
{
    if q >= limit {
        Some(q)
    } else {
        match byte_at(d, q) {
            None => None,
            Some(b0) => if b0 != 0 {
                structure_end(d, limit, q + 1)
            } else {
                match byte_at(d, q + 1) {
                    None => None,
                    Some(b1) => if b1 != 0 {
                        structure_end(d, limit, q + 1)
                    } else {
                        Some(q)
                    },
                }
            },
        }
    }
}

/// The scan for the end of a structure never moves backwards.
pub proof fn lemma_structure_end_ge(d: Seq<u8>, limit: int, q: int)
    ensures
        structure_end(d, limit, q) matches Some(r) ==> r >= q,
    decreases limit - q,
{
    if q < limit {
        lemma_structure_end_ge(d, limit, q + 1);
    }
}

/// Walks the structure table from position `p`, within the first `limit`
/// bytes: the first BIOS structure fills the BIOS fields, the first System
/// structure of at least 0x19 bytes fills the system fields and ends the
/// walk. A structure shorter than its 4-byte header ends it too, and so
/// does a structure whose header or string-set runs past the data.
pub open spec fn walk(d: Seq<u8>, limit: int, p: int, bios_seen: bool, m: DmiModel) -> DmiModel
    decreases (if p < limit { limit - p } else { 0 }),
{
    if p >= limit || p < 0 {
        m
    } else {
        match (byte_at(d, p), byte_at(d, p + 1)) {
            (Some(t), Some(len)) => if len < 4 {
                m
            } else {
                let m1 = if t == 0 && !bios_seen {
                    with_bios_info(d, p, m)
                } else {
                    m
                };
                if t == 1 && len >= 0x19 {
                    with_system_info(d, p, m1)
                } else {
                    match structure_end(d, limit, p + len) {
                        None => m1,
                        Some(next) => {
                            proof {
                                lemma_structure_end_ge(d, limit, p + len);
                            }
                            walk(d, limit, next + 2, bios_seen || t == 0, m1)
                        },
                    }
                }
            },
            _ => m,
        }
    }
}

/// What the structure table `d` says, reading its first `limit` bytes.
pub open spec fn dmi_info_of(d: Seq<u8>, limit: int) -> DmiModel {
    walk(d, limit, 0, false, empty_dmi_model())
}

} // verus!

verus! {

/// The byte at position `i`, if the data holds one.
fn read_byte(d: &[u8], i: u64) -> (r: Option<u8>)
    ensures
        r == byte_at(d@, i as int),
{
    if i < d.len() as u64 {
        Some(d[i as usize])
    } else {
        None
    }
}

/// The string named by the index byte at offset `off` of the structure at `p`.
fn read_string(d: &[u8], p: u64, off: u64) -> (r: Option<String>)
    requires
        p < d.len(),
        p <= u32::MAX,
        off <= 0x1A,
    ensures
        match r {
            Some(s) => found_string(d@, p as int, off as int) == Some(s@),
            None => found_string(d@, p as int, off as int) is None,
        },
{
    match read_byte(d, p + off) {
        Some(idx) => match get_string_by_dmi(d, p as usize, idx) {
            Ok(s) => Some(s),
            Err(_) => None,
        },
        None => None,
    }
}

/// `major.minor` in decimal, as `format!("{}.{}", major, minor)` writes it.
fn version_string(major: u8, minor: u8) -> (s: String)
    ensures
        s@ == ascii_chars(decimal_byte(major) + seq![46u8] + decimal_byte(minor)),
{
    let mut out: Vec<u8> = Vec::new();
    push_decimal_byte(&mut out, major);
    out.push(46);
    push_decimal_byte(&mut out, minor);
    proof {
        let expect = decimal_byte(major) + seq![46u8] + decimal_byte(minor);
        assert(out@ =~= expect);
        assert(all_ascii(expect));
    }
    ascii_string(out)
}

/// Fills the BIOS fields from the BIOS Information structure at `p`.
fn apply_bios_info(d: &[u8], p: u64, info: &mut DmiInformation)
    requires
        p < d.len(),
        p <= u32::MAX,
    ensures
        final(info)@ == with_bios_info(d@, p as int, old(info)@),
{
    if let Some(s) = read_string(d, p, 0x4) {
        info.bios_vendor = s;
    }
    if let Some(s) = read_string(d, p, 0x5) {
        info.bios_version = s;
    }
    if let Some(s) = read_string(d, p, 0x8) {
        info.bios_release_date = s;
    }
    if let (Some(major), Some(minor)) = (read_byte(d, p + 0x16), read_byte(d, p + 0x17)) {
        if major != 0xFF && minor != 0xFF {
            info.bios_embedded_controller_firmware_version = version_string(major, minor);
        }
    }
}

} // verus!

verus! {

/// Hexadecimal digits are ASCII.
proof fn lemma_hex_bytes_ascii(s: Seq<u8>)
    ensures
        all_ascii(hex_bytes(s)),
    decreases s.len(),
{
    if s.len() > 0 {
        lemma_hex_bytes_ascii(s.drop_last());
        let h = hex_bytes(s);
        assert(h =~= hex_bytes(s.drop_last()) + hex_byte(s.last()));
        assert forall|i: int| 0 <= i < h.len() implies #[trigger] h[i] < 128 by {
            if i >= hex_bytes(s.drop_last()).len() {
                let b = s.last();
                assert(b as int / 16 < 16 && b as int % 16 < 16);
            }
        }
    }
}

/// Appends the hexadecimal digits of `a[from..to]`.
fn push_hex_range(out: &mut Vec<u8>, a: &[u8; 16], from: usize, to: usize)
    requires
        from <= to <= 16,
    ensures
        final(out)@ == old(out)@ + hex_bytes(a@.subrange(from as int, to as int)),
{
    let mut i = from;
    assert(a@.subrange(from as int, from as int) =~= Seq::<u8>::empty());
    while i < to
        invariant
            from <= i <= to <= 16,
            out@ == old(out)@ + hex_bytes(a@.subrange(from as int, i as int)),
        decreases to - i,
    {
        let ghost prev = out@;
        push_hex_byte(out, a[i]);
        proof {
            let s = a@.subrange(from as int, i + 1);
            assert(s.drop_last() =~= a@.subrange(from as int, i as int));
            assert(s.last() == a@[i as int]);
            assert(out@ =~= old(out)@ + hex_bytes(s));
        }
        i = i + 1;
    }
}

/// The UUID in four dash-separated groups of four bytes.
fn uuid_string(u: &[u8; 16]) -> (s: String)
    ensures
        s@ == ascii_chars(uuid_text(u@)),
{
    let mut out: Vec<u8> = Vec::new();
    push_hex_range(&mut out, u, 0, 4);
    out.push(45);
    push_hex_range(&mut out, u, 4, 8);
    out.push(45);
    push_hex_range(&mut out, u, 8, 12);
    out.push(45);
    push_hex_range(&mut out, u, 12, 16);
    proof {
        let t = uuid_text(u@);
        assert(out@ =~= t);
        lemma_hex_bytes_ascii(u@.subrange(0, 4));
        lemma_hex_bytes_ascii(u@.subrange(4, 8));
        lemma_hex_bytes_ascii(u@.subrange(8, 12));
        lemma_hex_bytes_ascii(u@.subrange(12, 16));
        assert(all_ascii(t));
    }
    ascii_string(out)
}

/// The GUID in the usual 4-2-2-2-6 byte grouping.
fn guid_string(g: &[u8; 16]) -> (s: String)
    ensures
        s@ == ascii_chars(guid_text(g@)),
{
    let mut out: Vec<u8> = Vec::new();
    push_hex_range(&mut out, g, 0, 4);
    out.push(45);
    push_hex_range(&mut out, g, 4, 6);
    out.push(45);
    push_hex_range(&mut out, g, 6, 8);
    out.push(45);
    push_hex_range(&mut out, g, 8, 10);
    out.push(45);
    push_hex_range(&mut out, g, 10, 16);
    proof {
        let t = guid_text(g@);
        assert(out@ =~= t);
        lemma_hex_bytes_ascii(g@.subrange(0, 4));
        lemma_hex_bytes_ascii(g@.subrange(4, 6));
        lemma_hex_bytes_ascii(g@.subrange(6, 8));
        lemma_hex_bytes_ascii(g@.subrange(8, 10));
        lemma_hex_bytes_ascii(g@.subrange(10, 16));
        assert(all_ascii(t));
    }
    ascii_string(out)
}

/// Whether a UUID is all zeros or all 0xFF.
fn is_placeholder_uuid(u: &[u8; 16]) -> (r: bool)
    ensures
        r == uuid_is_placeholder(u@),
{
    let mut all_zero = true;
    let mut all_one = true;
    let mut i: usize = 0;
    while i < 16
        invariant
            i <= 16,
            all_zero == (forall|j: int| 0 <= j < i ==> #[trigger] u@[j] == 0),
            all_one == (forall|j: int| 0 <= j < i ==> #[trigger] u@[j] == 0xFF),
        decreases 16 - i,
    {
        if u[i] != 0x00 {
            all_zero = false;
        }
        if u[i] != 0xFF {
            all_one = false;
        }
        i = i + 1;
    }
    all_zero || all_one
}

/// Fills the system fields from the System Information structure at `p`.
fn apply_system_info(d: &[u8], p: u64, info: &mut DmiInformation)
    requires
        p < d.len(),
        p <= u32::MAX,
    ensures
        final(info)@ == with_system_info(d@, p as int, old(info)@),
{
    if let Some(s) = read_string(d, p, 0x4) {
        info.system_manufacturer = s;
    }
    if let Some(s) = read_string(d, p, 0x5) {
        info.system_product = s;
    }
    if let Some(s) = read_string(d, p, 0x6) {
        info.system_version = s;
    }
    if let Some(s) = read_string(d, p, 0x7) {
        info.system_serial_number = s;
    }
    if let Some(s) = read_string(d, p, 0x19) {
        info.system_sku_number = s;
    }
    if let Some(s) = read_string(d, p, 0x1A) {
        info.system_family = s;
    }
    let start = p as usize;
    if 24 <= d.len() - start {
        let q = start + 8;
        let uuid: [u8; 16] = [
            d[q],
            d[q + 1],
            d[q + 2],
            d[q + 3],
            d[q + 4],
            d[q + 5],
            d[q + 6],
            d[q + 7],
            d[q + 8],
            d[q + 9],
            d[q + 10],
            d[q + 11],
            d[q + 12],
            d[q + 13],
            d[q + 14],
            d[q + 15],
        ];
        assert(uuid@ =~= d@.subrange(q as int, q + 16));
        if !is_placeholder_uuid(&uuid) {
            let guid: [u8; 16] = [
                uuid[3],
                uuid[2],
                uuid[1],
                uuid[0],
                uuid[5],
                uuid[4],
                uuid[7],
                uuid[6],
                uuid[8],
                uuid[9],
                uuid[10],
                uuid[11],
                uuid[12],
                uuid[13],
                uuid[14],
                uuid[15],
            ];
            assert(guid@ =~= guid_of(uuid@));
            let uuid_text = uuid_string(&uuid);
            let guid_text = guid_string(&guid);
            info.system_uuid = (uuid, uuid_text);
            info.system_guid = (guid, guid_text);
        }
    }
}

} // verus!

verus! {

/// Scans from `q` for the double NUL that ends a structure's string-set.
fn find_structure_end(d: &[u8], limit: u64, q: u64) -> (r: Option<u64>)
    requires
        limit <= u32::MAX,
        q <= limit + 0x100,
    ensures
        match r {
            Some(e) => structure_end(d@, limit as int, q as int) == Some(e as int),
            None => structure_end(d@, limit as int, q as int) is None,
        },
        r matches Some(e) ==> q <= e <= limit + 0x100,
{
    let mut i = q;
    while i < limit
        invariant
            limit <= u32::MAX,
            q <= i <= limit + 0x100,
            structure_end(d@, limit as int, i as int) == structure_end(
                d@,
                limit as int,
                q as int,
            ),
        decreases limit - i,
    {
        match read_byte(d, i) {
            None => {
                return None;
            },
            Some(b0) => {
                if b0 == 0 {
                    match read_byte(d, i + 1) {
                        None => {
                            return None;
                        },
                        Some(b1) => {
                            if b1 == 0 {
                                return Some(i);
                            }
                        },
                    }
                }
            },
        }
        i = i + 1;
    }
    Some(i)
}

/// Decodes the structure table `d`, of which the first `length` bytes hold
/// structures.
pub fn parse_smbios_table(d: &[u8], length: u32) -> (info: DmiInformation)
    ensures
        info@ == dmi_info_of(d@, length as int),
{
    let limit = length as u64;
    let mut info = DmiInformation::default();
    let mut p: u64 = 0;
    let mut bios_seen = false;
    loop
        invariant
            limit == length,
            limit <= u32::MAX,
            p <= limit + 0x102,
            walk(d@, limit as int, p as int, bios_seen, info@) == dmi_info_of(d@, length as int),
        ensures
            info@ == dmi_info_of(d@, length as int),
        decreases limit + 0x102 - p,
    {
        if p >= limit {
            break;
        }
        let t = read_byte(d, p);
        let l = read_byte(d, p + 1);
        if t.is_none() || l.is_none() {
            break;
        }
        let t = t.unwrap();
        let len = l.unwrap();
        if len < 4 {
            break;
        }
        if t == 0 && !bios_seen {
            apply_bios_info(d, p, &mut info);
        }
        bios_seen = bios_seen || t == 0;
        if t == 1 && len >= 0x19 {
            apply_system_info(d, p, &mut info);
            break;
        }
        match find_structure_end(d, limit, p + len as u64) {
            None => {
                break;
            },
            Some(next) => {
                p = next + 2;
            },
        }
    }
    info
}

/// Decodes a raw SMBIOS firmware table: an 8-byte header, whose last four
/// bytes give the length of the structure table, followed by that table.
pub fn parse_dmi_info(buffer: &[u8]) -> (info: DmiInformation)
    requires
        buffer.len() >= 8,
    ensures
        info@ == dmi_info_of(
            buffer@.subrange(8, buffer.len() as int),
            le_u32(buffer@[4], buffer@[5], buffer@[6], buffer@[7]),
        ),
{
    let smb = RawSMBIOSData::from_buffer(buffer);
    parse_smbios_table(smb.smbiostable_data.as_slice(), smb.length)
}

/// Why no DMI information could be taken from a firmware table reply.
#[derive(Debug, Clone, Copy, PartialEq, Eq, Structural)]
pub enum FirmwareTableError {
    /// The firmware table call reported no data (its return length is 0).
    CallFailed,
    /// The call reports more bytes than the buffer given to it holds.
    Overrun,
}

/// Decodes the reply of `GetSystemFirmwareTable`: `buffer` is the buffer
/// handed to the call and `return_length` what the call returned.
pub fn dmi_info_from_firmware_table(buffer: &[u8], return_length: u32) -> (r: Result<
    DmiInformation,
    FirmwareTableError,
>)
    requires
        return_length == 0 || return_length > buffer.len() || buffer.len() >= 8,
    ensures
        return_length == 0 <==> r == Err::<DmiInformation, FirmwareTableError>(
            FirmwareTableError::CallFailed,
        ),
        (return_length != 0 && return_length > buffer.len()) <==> r == Err::<
            DmiInformation,
            FirmwareTableError,
        >(FirmwareTableError::Overrun),
        r matches Ok(info) ==> info@ == dmi_info_of(
            buffer@.subrange(8, buffer.len() as int),
            le_u32(buffer@[4], buffer@[5], buffer@[6], buffer@[7]),
        ),
{
    if return_length == 0 {
        return Err(FirmwareTableError::CallFailed);
    }
    if return_length as u64 > buffer.len() as u64 {
        return Err(FirmwareTableError::Overrun);
    }
    Ok(parse_dmi_info(buffer))
}

} // verus!

verus! {

/// The identifiers of a decoded table agree with each other: the GUID bytes
/// are the UUID bytes in GUID order, and the texts are either both empty
/// with all-zero bytes (no usable UUID was found) or the hexadecimal
/// spelling of a UUID that is neither all zeros nor all 0xFF.
pub open spec fn identifiers_consistent(m: DmiModel) -> bool {
    let u = m.system_uuid.0;
    &&& u.len() == 16
    &&& m.system_guid.0 == guid_of(u)
    &&& {
        ||| (m.system_uuid.1.len() == 0 && m.system_guid.1.len() == 0 && forall|i: int|
            0 <= i < 16 ==> #[trigger] u[i] == 0)
        ||| (!uuid_is_placeholder(u) && m.system_uuid.1 == ascii_chars(uuid_text(u))
            && m.system_guid.1 == ascii_chars(guid_text(guid_of(u))))
    }
}

proof fn lemma_walk_keeps_identifiers(
    d: Seq<u8>,
    limit: int,
    p: int,
    bios_seen: bool,
    m: DmiModel,
)
    requires
        identifiers_consistent(m),
    ensures
        identifiers_consistent(walk(d, limit, p, bios_seen, m)),
    decreases (if p < limit { limit - p } else { 0 }),
{
    if p < limit && p >= 0 {
        if let (Some(t), Some(len)) = (byte_at(d, p), byte_at(d, p + 1)) {
            if len >= 4 {
                let m1 = if t == 0 && !bios_seen {
                    with_bios_info(d, p, m)
                } else {
                    m
                };
                assert(identifiers_consistent(m1));
                if t == 1 && len >= 0x19 {
                    if let Some(u) = uuid_at(d, p) {
                        assert(u.len() == 16);
                    }
                } else {
                    if let Some(next) = structure_end(d, limit, p + len) {
                        lemma_structure_end_ge(d, limit, p + len);
                        lemma_walk_keeps_identifiers(d, limit, next + 2, bios_seen || t == 0, m1);
                    }
                }
            }
        }
    }
}

/// Whatever the table holds, the decoded UUID and GUID agree with each
/// other and with their texts.
pub proof fn lemma_dmi_identifiers_consistent(d: Seq<u8>, limit: int)
    ensures
        identifiers_consistent(dmi_info_of(d, limit)),
{
    let m = empty_dmi_model();
    assert(m.system_guid.0 =~= guid_of(m.system_uuid.0));
    lemma_walk_keeps_identifiers(d, limit, 0, false, m);
}

/// Putting a UUID in GUID order twice gives the UUID back.
pub proof fn lemma_guid_order_involution(u: Seq<u8>)
    requires
        u.len() == 16,
    ensures
        guid_of(guid_of(u)) == u,
{
    assert(guid_of(guid_of(u)) =~= u);
}

} // verus!

verus! {

/// One past the last position looked at to read the string named at
/// offset `off` of the structure at `p`.
pub open spec fn found_string_extent(d: Seq<u8>, p: int, off: int) -> int {
    match byte_at(d, p + off) {
        None => p + off + 1,
        Some(idx) => max_pos(p + off + 1, dmi_string_extent(d, p, idx)),
    }
}

/// One past the last position looked at to fill the BIOS fields.
pub open spec fn bios_extent(d: Seq<u8>, p: int) -> int {
    max_pos(
        max_pos(found_string_extent(d, p, 0x4), found_string_extent(d, p, 0x5)),
        max_pos(found_string_extent(d, p, 0x8), p + 0x18),
    )
}

/// One past the last position looked at to fill the system fields.
pub open spec fn system_extent(d: Seq<u8>, p: int) -> int {
    max_pos(
        max_pos(
            max_pos(found_string_extent(d, p, 0x4), found_string_extent(d, p, 0x5)),
            max_pos(found_string_extent(d, p, 0x6), found_string_extent(d, p, 0x7)),
        ),
        max_pos(
            max_pos(found_string_extent(d, p, 0x19), found_string_extent(d, p, 0x1A)),
            p + 24,
        ),
    )
}

/// One past the last position looked at by the scan for the end of a
/// structure.
pub open spec fn scan_extent(d: Seq<u8>, limit: int, q: int) -> int
    decreases limit - q,
{
    if q >= limit {
        q
    } else {
        match byte_at(d, q) {
            None => q + 1,
            Some(b0) => if b0 != 0 {
                scan_extent(d, limit, q + 1)
            } else {
                match byte_at(d, q + 1) {
                    None => q + 2,
                    Some(b1) => if b1 != 0 {
                        max_pos(q + 2, scan_extent(d, limit, q + 1))
                    } else {
                        q + 2
                    },
                }
            },
        }
    }
}

/// One past the last position of the structure table that the walk from
/// `p` looks at: its point of stopping.
pub open spec fn walk_extent(d: Seq<u8>, limit: int, p: int, bios_seen: bool) -> int
    decreases (if p < limit { limit - p } else { 0 }),
{
    if p >= limit || p < 0 {
        0
    } else {
        match (byte_at(d, p), byte_at(d, p + 1)) {
            (Some(t), Some(len)) => if len < 4 {
                p + 2
            } else {
                let bios = if t == 0 && !bios_seen {
                    bios_extent(d, p)
                } else {
                    0
                };
                let rest = if t == 1 && len >= 0x19 {
                    system_extent(d, p)
                } else {
                    match structure_end(d, limit, p + len) {
                        None => scan_extent(d, limit, p + len),
                        Some(next) => {
                            proof {
                                lemma_structure_end_ge(d, limit, p + len);
                            }
                            max_pos(
                                scan_extent(d, limit, p + len),
                                walk_extent(d, limit, next + 2, bios_seen || t == 0),
                            )
                        },
                    }
                };
                max_pos(p + 2, max_pos(bios, rest))
            },
            _ => p + 2,
        }
    }
}

proof fn lemma_found_string_agree(d1: Seq<u8>, d2: Seq<u8>, n: int, p: int, off: int)
    requires
        0 <= p,
        0 <= off,
        found_string_extent(d1, p, off) <= n,
        agree_below(d1, d2, n),
    ensures
        found_string(d1, p, off) == found_string(d2, p, off),
{
    lemma_agree_at(d1, d2, n, p + off);
    if let Some(idx) = byte_at(d1, p + off) {
        lemma_dmi_string_agree(d1, d2, n, p, idx);
    }
}

proof fn lemma_bios_agree(d1: Seq<u8>, d2: Seq<u8>, n: int, p: int, m: DmiModel)
    requires
        0 <= p,
        bios_extent(d1, p) <= n,
        agree_below(d1, d2, n),
    ensures
        with_bios_info(d1, p, m) == with_bios_info(d2, p, m),
{
    lemma_found_string_agree(d1, d2, n, p, 0x4);
    lemma_found_string_agree(d1, d2, n, p, 0x5);
    lemma_found_string_agree(d1, d2, n, p, 0x8);
    lemma_agree_at(d1, d2, n, p + 0x16);
    lemma_agree_at(d1, d2, n, p + 0x17);
    assert(byte_at(d1, p + 0x16) == byte_at(d2, p + 0x16));
    assert(byte_at(d1, p + 0x17) == byte_at(d2, p + 0x17));
    assert(ec_firmware_version(d1, p) == ec_firmware_version(d2, p));
}

proof fn lemma_system_agree(d1: Seq<u8>, d2: Seq<u8>, n: int, p: int, m: DmiModel)
    requires
        0 <= p,
        system_extent(d1, p) <= n,
        agree_below(d1, d2, n),
    ensures
        with_system_info(d1, p, m) == with_system_info(d2, p, m),
{
    lemma_found_string_agree(d1, d2, n, p, 0x4);
    lemma_found_string_agree(d1, d2, n, p, 0x5);
    lemma_found_string_agree(d1, d2, n, p, 0x6);
    lemma_found_string_agree(d1, d2, n, p, 0x7);
    lemma_found_string_agree(d1, d2, n, p, 0x19);
    lemma_found_string_agree(d1, d2, n, p, 0x1A);
    lemma_agree_at(d1, d2, n, p + 23);
    if p + 24 <= d1.len() {
        lemma_agree_subrange(d1, d2, n, p + 8, p + 24);
    }
    assert(uuid_at(d1, p) == uuid_at(d2, p));
}

proof fn lemma_structure_end_agree(d1: Seq<u8>, d2: Seq<u8>, n: int, limit: int, q: int)
    requires
        0 <= q,
        scan_extent(d1, limit, q) <= n,
        agree_below(d1, d2, n),
    ensures
        structure_end(d1, limit, q) == structure_end(d2, limit, q),
        scan_extent(d1, limit, q) >= q,
    decreases limit - q,
{
    if q < limit {
        lemma_scan_extent_ge(d1, limit, q);
        lemma_agree_at(d1, d2, n, q);
        if q < d1.len() {
            if d1[q] != 0 {
                lemma_structure_end_agree(d1, d2, n, limit, q + 1);
            } else {
                lemma_agree_at(d1, d2, n, q + 1);
                if q + 1 < d1.len() && d1[q + 1] != 0 {
                    lemma_structure_end_agree(d1, d2, n, limit, q + 1);
                }
            }
        }
    }
}

proof fn lemma_scan_extent_ge(d: Seq<u8>, limit: int, q: int)
    ensures
        scan_extent(d, limit, q) >= q,
        q < limit ==> scan_extent(d, limit, q) > q,
    decreases limit - q,
{
    if q < limit {
        lemma_scan_extent_ge(d, limit, q + 1);
    }
}

proof fn lemma_walk_agree(
    d1: Seq<u8>,
    d2: Seq<u8>,
    n: int,
    limit: int,
    p: int,
    bios_seen: bool,
    m: DmiModel,
)
    requires
        walk_extent(d1, limit, p, bios_seen) <= n,
        agree_below(d1, d2, n),
    ensures
        walk(d1, limit, p, bios_seen, m) == walk(d2, limit, p, bios_seen, m),
    decreases (if p < limit { limit - p } else { 0 }),
{
    if p < limit && p >= 0 {
        lemma_agree_at(d1, d2, n, p);
        lemma_agree_at(d1, d2, n, p + 1);
        assert(byte_at(d1, p) == byte_at(d2, p));
        assert(byte_at(d1, p + 1) == byte_at(d2, p + 1));
        if let (Some(t), Some(len)) = (byte_at(d1, p), byte_at(d1, p + 1)) {
            if len >= 4 {
                let m1 = if t == 0 && !bios_seen {
                    lemma_bios_agree(d1, d2, n, p, m);
                    with_bios_info(d1, p, m)
                } else {
                    m
                };
                if t == 1 && len >= 0x19 {
                    lemma_system_agree(d1, d2, n, p, m1);
                } else {
                    lemma_structure_end_agree(d1, d2, n, limit, p + len);
                    if let Some(next) = structure_end(d1, limit, p + len) {
                        lemma_structure_end_ge(d1, limit, p + len);
                        lemma_walk_agree(d1, d2, n, limit, next + 2, bios_seen || t == 0, m1);
                    }
                }
            }
        }
    }
}

/// The decoded information depends only on the bytes the walk looks at:
/// a table that agrees with `d1` on every position before the point where
/// the walk of `d1` stops (`walk_extent`) decodes to the same information,
/// whatever follows, later BIOS structures included.
pub proof fn lemma_dmi_info_ignores_bytes_after_stop(d1: Seq<u8>, d2: Seq<u8>, limit: int)
    requires
        agree_below(d1, d2, walk_extent(d1, limit, 0, false)),
    ensures
        dmi_info_of(d1, limit) == dmi_info_of(d2, limit),
{
    lemma_walk_agree(d1, d2, walk_extent(d1, limit, 0, false), limit, 0, false, empty_dmi_model());
}

} // verus!

verus! {

/// The double NUL that ends the string-set scanned from `q`, looking as far
/// as the data goes.
pub open spec fn set_end(d: Seq<u8>, q: int) -> Option<int> {
    structure_end(d, d.len() as int, q)
}

/// Where the walk from `p` stops on a table: right after the string-set of
/// the System structure that ends it, right after a header whose length is
/// below 4, or after the last structure before `limit`.
pub open spec fn walk_stop(d: Seq<u8>, limit: int, p: int, bios_seen: bool) -> int
    decreases (if p < limit { limit - p } else { 0 }),
{
    if p >= limit || p < 0 {
        0
    } else {
        match (byte_at(d, p), byte_at(d, p + 1)) {
            (Some(t), Some(len)) => if len < 4 {
                p + 2
            } else if t == 1 && len >= 0x19 {
                match set_end(d, p + len) {
                    Some(e) => e + 2,
                    None => d.len() + 1int,
                }
            } else {
                match structure_end(d, limit, p + len) {
                    None => d.len() + 1int,
                    Some(next) => {
                        proof {
                            lemma_structure_end_ge(d, limit, p + len);
                        }
                        max_pos(next + 2, walk_stop(d, limit, next + 2, bios_seen || t == 0))
                    },
                }
            },
            _ => p + 2,
        }
    }
}

/// The structures that the walk from `p` visits are well formed: the BIOS
/// structure it reads is at least 0x18 bytes long (SMBIOS 2.4 and later),
/// the System structure that ends the walk has its string-set closed by a
/// double NUL inside the data, and every other structure has its string-set
/// closed by a double NUL before `limit`.
pub open spec fn walk_well_formed(d: Seq<u8>, limit: int, p: int, bios_seen: bool) -> bool
    decreases (if p < limit { limit - p } else { 0 }),
{
    if p >= limit || p < 0 {
        true
    } else {
        match (byte_at(d, p), byte_at(d, p + 1)) {
            (Some(t), Some(len)) => if len < 4 {
                true
            } else {
                &&& (t == 0 && !bios_seen ==> len >= 0x18)
                &&& if t == 1 && len >= 0x19 {
                    set_end(d, p + len) matches Some(e) && e + 1 < d.len()
                } else {
                    match structure_end(d, limit, p + len) {
                        None => false,
                        Some(next) => {
                            proof {
                                lemma_structure_end_ge(d, limit, p + len);
                            }
                            next < limit && walk_well_formed(d, limit, next + 2, bios_seen || t == 0)
                        },
                    }
                }
            },
            _ => true,
        }
    }
}

/// A scan that ends before its limit has found a double NUL, and looked at
/// nothing past it.
proof fn lemma_structure_end_found(d: Seq<u8>, limit: int, q: int)
    requires
        structure_end(d, limit, q) matches Some(r) && r < limit,
    ensures
        ({
            let r = structure_end(d, limit, q)->Some_0;
            &&& q <= r
            &&& r + 1 < d.len()
            &&& d[r] == 0
            &&& d[r + 1] == 0
            &&& scan_extent(d, limit, q) == r + 2
        }),
    decreases limit - q,
{
    if q < limit && 0 <= q < d.len() {
        if d[q] != 0 || (q + 1 < d.len() && d[q + 1] != 0) {
            lemma_structure_end_found(d, limit, q + 1);
        }
    }
}

/// The reads for a structure whose string-set ends with the two NULs at
/// `e` and `e + 1` stay inside it.
proof fn lemma_structure_reads_within_set(d: Seq<u8>, p: int, e: int)
    requires
        0 <= p,
        p + 1 < d.len(),
        p + d[p + 1] <= e,
        e + 1 < d.len(),
        d[e] == 0,
        d[e + 1] == 0,
    ensures
        d[p + 1] >= 0x18 ==> bios_extent(d, p) <= e + 2,
        d[p + 1] >= 0x19 ==> system_extent(d, p) <= e + 2,
{
    let len = d[p + 1];
    if len >= 0x18 {
        lemma_dmi_string_extent_within_set(d, p, d[p + 0x4], e);
        lemma_dmi_string_extent_within_set(d, p, d[p + 0x5], e);
        lemma_dmi_string_extent_within_set(d, p, d[p + 0x8], e);
        lemma_dmi_string_extent_within_set(d, p, d[p + 0x6], e);
        lemma_dmi_string_extent_within_set(d, p, d[p + 0x7], e);
        lemma_dmi_string_extent_within_set(d, p, d[p + 0x19], e);
        if p + 0x1A < d.len() {
            lemma_dmi_string_extent_within_set(d, p, d[p + 0x1A], e);
        }
    }
}

/// On a well-formed table the walk looks at nothing past its stop point.
proof fn lemma_walk_extent_within_stop(d: Seq<u8>, limit: int, p: int, bios_seen: bool)
    requires
        walk_well_formed(d, limit, p, bios_seen),
    ensures
        walk_extent(d, limit, p, bios_seen) <= walk_stop(d, limit, p, bios_seen),
    decreases (if p < limit { limit - p } else { 0 }),
{
    if p < limit && p >= 0 {
        if let (Some(t), Some(len)) = (byte_at(d, p), byte_at(d, p + 1)) {
            if len >= 4 {
                if t == 1 && len >= 0x19 {
                    let e = set_end(d, p + len)->Some_0;
                    lemma_structure_end_found(d, d.len() as int, p + len);
                    lemma_structure_reads_within_set(d, p, e);
                } else {
                    let next = structure_end(d, limit, p + len)->Some_0;
                    lemma_structure_end_found(d, limit, p + len);
                    lemma_structure_reads_within_set(d, p, next);
                    lemma_walk_extent_within_stop(d, limit, next + 2, bios_seen || t == 0);
                }
            }
        }
    }
}

/// Later structures have no effect: on a well-formed table, a table that
/// agrees with it on every byte before the point where its walk stops
/// (after the string-set of the System structure that ends the walk, or
/// after a header whose length is below 4) decodes to the same
/// information, whatever follows, later BIOS structures included.
pub proof fn lemma_dmi_info_ignores_later_structures(d1: Seq<u8>, d2: Seq<u8>, limit: int)
    requires
        walk_well_formed(d1, limit, 0, false),
        agree_below(d1, d2, walk_stop(d1, limit, 0, false)),
    ensures
        dmi_info_of(d1, limit) == dmi_info_of(d2, limit),
{
    lemma_walk_extent_within_stop(d1, limit, 0, false);
    lemma_dmi_info_ignores_bytes_after_stop(d1, d2, limit);
}

} // verus!

verus! {

/// The hexadecimal spelling of a byte sequence holds two digits per byte,
/// which read back as that byte.
proof fn lemma_hex_bytes_reads_back(s: Seq<u8>)
    ensures
        ascii_chars(hex_bytes(s)).len() == 2 * s.len(),
        forall|i: int|
            0 <= i < s.len() ==> #[trigger] hex_pair_value(ascii_chars(hex_bytes(s)), 2 * i)
                == s[i],
    decreases s.len(),
{
    if s.len() > 0 {
        let init = s.drop_last();
        lemma_hex_bytes_reads_back(init);
        lemma_hex_byte_reads_back(s.last());
        let a = ascii_chars(hex_bytes(init));
        let b = ascii_chars(hex_byte(s.last()));
        let t = ascii_chars(hex_bytes(s));
        assert(t =~= a + b);
        assert forall|i: int| 0 <= i < s.len() implies #[trigger] hex_pair_value(t, 2 * i)
            == s[i] by {
            if i < s.len() - 1 {
                assert(hex_pair_value(a, 2 * i) == init[i]);
                assert(t[2 * i] == a[2 * i] && t[2 * i + 1] == a[2 * i + 1]);
            } else {
                assert(t[2 * i] == b[0] && t[2 * i + 1] == b[1]);
            }
        }
    }
}

/// Position in the UUID text of the digits of UUID byte `k`: groups of four
/// bytes, each followed by a dash.
pub open spec fn uuid_digit_position(k: int) -> int {
    2 * k + k / 4
}

/// Position in the GUID text of the digits of GUID byte `k`: groups of
/// 4, 2, 2, 2 and 6 bytes separated by dashes.
pub open spec fn guid_digit_position(k: int) -> int {
    let dashes_before: int = if k < 4 {
        0
    } else if k < 6 {
        1
    } else if k < 8 {
        2
    } else if k < 10 {
        3
    } else {
        4
    };
    2 * k + dashes_before
}

/// Which UUID byte stands at position `k` of the GUID: the first three
/// fields are byte-swapped, the last eight bytes stay in place.
pub open spec fn guid_source(k: int) -> int {
    if k < 4 {
        3 - k
    } else if k < 6 {
        9 - k
    } else if k < 8 {
        13 - k
    } else {
        k
    }
}

/// The UUID text is `XXXXXXXX-XXXXXXXX-XXXXXXXX-XXXXXXXX`, and its digits
/// read back, as hexadecimal pairs, as the 16 UUID bytes in order.
pub proof fn lemma_uuid_text_reads_back(u: Seq<u8>)
    requires
        u.len() == 16,
    ensures
        ({
            let t = ascii_chars(uuid_text(u));
            &&& t.len() == 35
            &&& t[8] == '-' && t[17] == '-' && t[26] == '-'
            &&& forall|k: int|
                0 <= k < 16 ==> #[trigger] hex_pair_value(t, uuid_digit_position(k)) == u[k]
        }),
{
    let a = ascii_chars(hex_bytes(u.subrange(0, 4)));
    let b = ascii_chars(hex_bytes(u.subrange(4, 8)));
    let c = ascii_chars(hex_bytes(u.subrange(8, 12)));
    let e = ascii_chars(hex_bytes(u.subrange(12, 16)));
    lemma_hex_bytes_reads_back(u.subrange(0, 4));
    lemma_hex_bytes_reads_back(u.subrange(4, 8));
    lemma_hex_bytes_reads_back(u.subrange(8, 12));
    lemma_hex_bytes_reads_back(u.subrange(12, 16));
    let dash = seq!['-'];
    let t = ascii_chars(uuid_text(u));
    assert(ascii_chars(seq![45u8]) =~= dash);
    assert(t =~= a + dash + b + dash + c + dash + e);
    assert forall|k: int| 0 <= k < 16 implies #[trigger] hex_pair_value(
        t,
        uuid_digit_position(k),
    ) == u[k] by {
        let g = k / 4;
        let i = k % 4;
        assert(uuid_digit_position(k) == 9 * g + 2 * i);
        if g == 0 {
            assert(hex_pair_value(a, 2 * i) == u.subrange(0, 4)[i]);
        } else if g == 1 {
            assert(hex_pair_value(b, 2 * i) == u.subrange(4, 8)[i]);
        } else if g == 2 {
            assert(hex_pair_value(c, 2 * i) == u.subrange(8, 12)[i]);
        } else {
            assert(hex_pair_value(e, 2 * i) == u.subrange(12, 16)[i]);
        }
    }
}

/// The GUID text is `XXXXXXXX-XXXX-XXXX-XXXX-XXXXXXXXXXXX`, and its digits
/// read back as the UUID bytes in GUID order.
pub proof fn lemma_guid_text_reads_back(u: Seq<u8>)
    requires
        u.len() == 16,
    ensures
        ({
            let t = ascii_chars(guid_text(guid_of(u)));
            &&& t.len() == 36
            &&& t[8] == '-' && t[13] == '-' && t[18] == '-' && t[23] == '-'
            &&& forall|k: int|
                0 <= k < 16 ==> #[trigger] hex_pair_value(t, guid_digit_position(k))
                    == u[guid_source(k)]
        }),
{
    let g = guid_of(u);
    let a = ascii_chars(hex_bytes(g.subrange(0, 4)));
    let b = ascii_chars(hex_bytes(g.subrange(4, 6)));
    let c = ascii_chars(hex_bytes(g.subrange(6, 8)));
    let e = ascii_chars(hex_bytes(g.subrange(8, 10)));
    let f = ascii_chars(hex_bytes(g.subrange(10, 16)));
    lemma_hex_bytes_reads_back(g.subrange(0, 4));
    lemma_hex_bytes_reads_back(g.subrange(4, 6));
    lemma_hex_bytes_reads_back(g.subrange(6, 8));
    lemma_hex_bytes_reads_back(g.subrange(8, 10));
    lemma_hex_bytes_reads_back(g.subrange(10, 16));
    let dash = seq!['-'];
    let t = ascii_chars(guid_text(g));
    assert(ascii_chars(seq![45u8]) =~= dash);
    assert(t =~= a + dash + b + dash + c + dash + e + dash + f);
    assert forall|k: int| 0 <= k < 16 implies #[trigger] hex_pair_value(
        t,
        guid_digit_position(k),
    ) == u[guid_source(k)] by {
        assert(g[k] == u[guid_source(k)]);
        if k < 4 {
            assert(hex_pair_value(a, 2 * k) == g.subrange(0, 4)[k]);
        } else if k < 6 {
            assert(hex_pair_value(b, 2 * (k - 4)) == g.subrange(4, 6)[k - 4]);
        } else if k < 8 {
            assert(hex_pair_value(c, 2 * (k - 6)) == g.subrange(6, 8)[k - 6]);
        } else if k < 10 {
            assert(hex_pair_value(e, 2 * (k - 8)) == g.subrange(8, 10)[k - 8]);
        } else {
            assert(hex_pair_value(f, 2 * (k - 10)) == g.subrange(10, 16)[k - 10]);
        }
    }
}

} // verus!

verus! {

/// What the decoder reports as UUID and GUID: either nothing (empty texts),
/// or texts whose hexadecimal digits read back as the UUID bytes, in order
/// for the UUID and in GUID order for the GUID, with the GUID bytes being
/// the UUID bytes in GUID order.
pub proof fn lemma_dmi_identifier_texts_read_back(d: Seq<u8>, limit: int)
    ensures
        ({
            let m = dmi_info_of(d, limit);
            let u = m.system_uuid.0;
            let g = m.system_guid.0;
            &&& u.len() == 16 && g.len() == 16
            &&& forall|k: int| 0 <= k < 16 ==> #[trigger] g[k] == u[guid_source(k)]
            &&& m.system_uuid.1.len() == 0 <==> m.system_guid.1.len() == 0
            &&& m.system_uuid.1.len() != 0 ==> {
                &&& m.system_uuid.1.len() == 35
                &&& forall|k: int|
                    0 <= k < 16 ==> #[trigger] hex_pair_value(
                        m.system_uuid.1,
                        uuid_digit_position(k),
                    ) == u[k]
                &&& m.system_guid.1.len() == 36
                &&& forall|k: int|
                    0 <= k < 16 ==> #[trigger] hex_pair_value(
                        m.system_guid.1,
                        guid_digit_position(k),
                    ) == u[guid_source(k)]
            }
        }),
{
    lemma_dmi_identifiers_consistent(d, limit);
    let m = dmi_info_of(d, limit);
    let u = m.system_uuid.0;
    assert forall|k: int| 0 <= k < 16 implies #[trigger] m.system_guid.0[k] == u[guid_source(k)] by {
    }
    if m.system_uuid.1.len() != 0 {
        lemma_uuid_text_reads_back(u);
        lemma_guid_text_reads_back(u);
    } else {
        assert(m.system_guid.1.len() == 0);
    }
}

/// The embedded controller firmware version of the BIOS structure at `p`
/// is reported exactly when both of its bytes (offsets 0x16 and 0x17) are
/// present and neither is 0xFF; it is then two decimal numbers, each
/// without a leading zero, joined by a dot, that read back as those bytes.
pub proof fn lemma_ec_firmware_version_reads_back(d: Seq<u8>, p: int)
    requires
        0 <= p,
    ensures
        ec_firmware_version(d, p) is Some <==> (p + 0x17 < d.len() && d[p + 0x16] != 0xFF
            && d[p + 0x17] != 0xFF),
        ec_firmware_version(d, p) matches Some(t) ==> exists|i: int|
            {
                &&& 0 < i < t.len() - 1
                &&& #[trigger] t[i] == '.'
                &&& all_decimal_digits(t.subrange(0, i))
                &&& all_decimal_digits(t.subrange(i + 1, t.len() as int))
                &&& decimal_value(t.subrange(0, i)) == d[p + 0x16]
                &&& decimal_value(t.subrange(i + 1, t.len() as int)) == d[p + 0x17]
                &&& (t[0] == '0' ==> i == 1)
                &&& (t[i + 1] == '0' ==> i + 2 == t.len())
            },
{
    if let Some(t) = ec_firmware_version(d, p) {
        let major = d[p + 0x16];
        let minor = d[p + 0x17];
        let a = ascii_chars(decimal_byte(major));
        let b = ascii_chars(decimal_byte(minor));
        lemma_decimal_byte_reads_back(major);
        lemma_decimal_byte_reads_back(minor);
        assert(ascii_chars(seq![46u8]) =~= seq!['.']);
        assert(t =~= a + seq!['.'] + b);
        let i = a.len() as int;
        assert(t.subrange(0, i) =~= a);
        assert(t.subrange(i + 1, t.len() as int) =~= b);
        assert(t[i] == '.');
    }
}

} // verus!

verus! {

/// Once a BIOS structure has been read, the rest of the walk leaves the
/// BIOS fields alone.
proof fn lemma_walk_keeps_bios_fields(d: Seq<u8>, limit: int, p: int, m: DmiModel)
    ensures
        ({
            let r = walk(d, limit, p, true, m);
            &&& r.bios_vendor == m.bios_vendor
            &&& r.bios_version == m.bios_version
            &&& r.bios_release_date == m.bios_release_date
            &&& r.bios_embedded_controller_firmware_version
                == m.bios_embedded_controller_firmware_version
        }),
    decreases (if p < limit { limit - p } else { 0 }),
{
    if p < limit && p >= 0 {
        if let (Some(t), Some(len)) = (byte_at(d, p), byte_at(d, p + 1)) {
            if len >= 4 && !(t == 1 && len >= 0x19) {
                if let Some(next) = structure_end(d, limit, p + len) {
                    lemma_structure_end_ge(d, limit, p + len);
                    lemma_walk_keeps_bios_fields(d, limit, next + 2, m);
                }
            }
        }
    }
}

/// The BIOS field named by the index byte at offset `off`: the vendor (4),
/// the version (5) or the release date (8).
pub open spec fn bios_string_field(m: DmiModel, off: int) -> Seq<char> {
    if off == 4 {
        m.bios_vendor
    } else if off == 5 {
        m.bios_version
    } else {
        m.bios_release_date
    }
}

/// When the table starts with a BIOS structure, the vendor, version and
/// release date reported are that structure's strings: if the index byte at
/// offset `off` names string `n` of its string-set, and that string exists,
/// is NUL-terminated and UTF-8, the field is the decoding of all its bytes.
pub proof fn lemma_first_bios_structure_gives_bios_strings(
    d: Seq<u8>,
    limit: int,
    off: int,
    starts: Seq<int>,
    nuls: Seq<int>,
)
    requires
        off == 4 || off == 5 || off == 8,
        0 < limit,
        off < d.len(),
        d[0] == 0,
        d[1] >= 4,
        d[off] == starts.len(),
        leading_strings(d, d[1] as int, starts, nuls),
    ensures
        bios_string_field(dmi_info_of(d, limit), off) == decode_utf8(
            d.subrange(starts[starts.len() - 1], nuls[starts.len() - 1]),
        ),
{
    lemma_dmi_string_reads_whole_string(d, 0, d[off], starts, nuls);
    let m1 = with_bios_info(d, 0, empty_dmi_model());
    assert(found_string(d, 0, off) == Some(
        decode_utf8(d.subrange(starts[starts.len() - 1], nuls[starts.len() - 1])),
    ));
    let len = d[1];
    if let Some(next) = structure_end(d, limit, len as int) {
        lemma_structure_end_ge(d, limit, len as int);
        lemma_walk_keeps_bios_fields(d, limit, next + 2, m1);
    }
}

} // verus!

verus! {

/// The system field named by the index byte at offset `off`.
pub open spec fn system_string_field(m: DmiModel, off: int) -> Seq<char> {
    if off == 4 {
        m.system_manufacturer
    } else if off == 5 {
        m.system_product
    } else if off == 6 {
        m.system_version
    } else if off == 7 {
        m.system_serial_number
    } else if off == 0x19 {
        m.system_sku_number
    } else {
        m.system_family
    }
}

/// When the table starts with a System structure of at least 0x19 bytes,
/// the system strings reported are that structure's strings (the field
/// named at offset `off` is the decoding of all the bytes of string `n`
/// when the index byte there is `n` and the string exists), and the UUID
/// reported is its 16 bytes at offset 8 unless they are all zeros or all
/// 0xFF.
pub proof fn lemma_first_system_structure_gives_system_fields(
    d: Seq<u8>,
    limit: int,
    off: int,
    starts: Seq<int>,
    nuls: Seq<int>,
)
    requires
        off == 4 || off == 5 || off == 6 || off == 7 || off == 0x19 || off == 0x1A,
        0 < limit,
        off < d.len(),
        d[0] == 1,
        d[1] >= 0x19,
        d[off] == starts.len(),
        leading_strings(d, d[1] as int, starts, nuls),
    ensures
        system_string_field(dmi_info_of(d, limit), off) == decode_utf8(
            d.subrange(starts[starts.len() - 1], nuls[starts.len() - 1]),
        ),
        24 <= d.len() && !uuid_is_placeholder(d.subrange(8, 24)) ==> dmi_info_of(
            d,
            limit,
        ).system_uuid.0 == d.subrange(8, 24),
{
    lemma_dmi_string_reads_whole_string(d, 0, d[off], starts, nuls);
    assert(found_string(d, 0, off) == Some(
        decode_utf8(d.subrange(starts[starts.len() - 1], nuls[starts.len() - 1])),
    ));
}

} // verus!
