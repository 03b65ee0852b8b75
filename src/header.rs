use vstd::prelude::*;

verus! {

/// Size of the fixed message header.
pub const DNS_HEADER_SIZE: usize = 12;

/// Longest reconstructed name, in octets (labels plus separators).
pub const DNS_MAX_HOSTNAME_LEN: usize = 256;

/// Messages must stay below this many bytes.
pub const DNS_MAX_PACKET_SIZE: usize = 65535;

/// Where the question section starts.
pub const DNS_OFFSET_QUESTION: usize = 12;

/// Record type of the EDNS0 OPT pseudo-record.
pub const DNS_TYPE_OPT: u16 = 41;

/// Response code: the server failed.
pub const DNS_RCODE_SERVFAIL: u8 = 2;

/// Response code: the server refused the query.
pub const DNS_RCODE_REFUSED: u8 = 5;

/// The big-endian 16-bit value stored at `p[i]`, `p[i + 1]`.
pub open spec fn be16(p: Seq<u8>, i: int) -> int {
    p[i] as int * 256 + p[i + 1] as int
}

/// The big-endian 32-bit value stored at `p[i]` .. `p[i + 3]`.
pub open spec fn be32(p: Seq<u8>, i: int) -> int {
    p[i] as int * 16777216 + p[i + 1] as int * 65536 + p[i + 2] as int * 256 + p[i + 3] as int
}

/// The response code of a message: the low four bits of byte 3.
pub open spec fn header_rcode(p: Seq<u8>) -> int {
    p[3] as int % 16
}

/// Checked read of a big-endian 16-bit field.
pub(crate) fn read_u16(packet: &[u8], i: usize) -> (r: u16)
    requires
        i + 2 <= packet@.len(),
    ensures
        r as int == be16(packet@, i as int),
{
    (packet[i] as u16) * 256 + (packet[i + 1] as u16)
}

/// Checked read of a big-endian 32-bit field.
pub(crate) fn read_u32(packet: &[u8], i: usize) -> (r: u32)
    requires
        i + 4 <= packet@.len(),
    ensures
        r as int == be32(packet@, i as int),
{
    (packet[i] as u32) * 16777216 + (packet[i + 1] as u32) * 65536 + (packet[i + 2] as u32) * 256
        + (packet[i + 3] as u32)
}

/// Number of entries in the question section.
pub fn qdcount(packet: &[u8]) -> (r: u16)
    requires
        packet@.len() >= 6,
    ensures
        r as int == be16(packet@, 4),
{
    read_u16(packet, 4)
}

/// Number of records in the answer section.
pub fn ancount(packet: &[u8]) -> (r: u16)
    requires
        packet@.len() >= 8,
    ensures
        r as int == be16(packet@, 6),
{
    read_u16(packet, 6)
}

/// Number of records in the authority section.
pub fn nscount(packet: &[u8]) -> (r: u16)
    requires
        packet@.len() >= 10,
    ensures
        r as int == be16(packet@, 8),
{
    read_u16(packet, 8)
}

/// Number of records in the additional section.
pub fn arcount(packet: &[u8]) -> (r: u16)
    requires
        packet@.len() >= 12,
    ensures
        r as int == be16(packet@, 10),
{
    read_u16(packet, 10)
}

/// The response code of a message. Only the first four bytes are read.
pub fn rcode(packet: &[u8]) -> (r: u8)
    requires
        packet@.len() >= 4,
    ensures
        r as int == header_rcode(packet@),
{
    let b = packet[3];
    assert(b & 0x0f == b % 16) by (bit_vector);
    b & 0x0f
}

/// Whether the response code justifies retrying against another upstream:
/// true exactly for SERVFAIL and REFUSED.
pub fn is_recoverable_error(packet: &[u8]) -> (r: bool)
    requires
        packet@.len() >= 4,
    ensures
        r == (header_rcode(packet@) == DNS_RCODE_SERVFAIL as int || header_rcode(packet@)
            == DNS_RCODE_REFUSED as int),
{
    let code = rcode(packet);
    code == DNS_RCODE_SERVFAIL || code == DNS_RCODE_REFUSED
}

/// Increments the additional-record count, unless it is already 65,535.
/// No other byte changes.
pub fn arcount_inc(packet: &mut Vec<u8>) -> (r: Result<(), crate::error::DnsError>)
    requires
        old(packet)@.len() >= 12,
    ensures
        be16(old(packet)@, 10) == 0xffff ==> r == Err::<(), crate::error::DnsError>(
            crate::error::DnsError::TooManyAdditionalRecords,
        ) && final(packet)@ == old(packet)@,
        be16(old(packet)@, 10) < 0xffff ==> r is Ok && final(packet)@ == old(packet)@.update(
            10,
            ((be16(old(packet)@, 10) + 1) / 256) as u8,
        ).update(11, ((be16(old(packet)@, 10) + 1) % 256) as u8),
{
    let count = arcount(packet.as_slice());
    if count == 0xffff {
        return Err(crate::error::DnsError::TooManyAdditionalRecords);
    }
    let count = count + 1;
    packet.set(10, (count / 256) as u8);
    packet.set(11, (count % 256) as u8);
    Ok(())
}

} // verus!
