use vstd::prelude::*;

verus! {

/// Why a message was rejected. Every kind is a rejection of malformed or
/// out-of-range input.
#[derive(Clone, Copy, Debug, PartialEq, Eq, Structural)]
pub enum DnsError {
    /// Fewer bytes remain than a fixed-size field needs.
    ShortPacket,
    /// A compression pointer starts on the last byte of the buffer.
    IncompleteCompressionPointer,
    /// A label-length octet uses a reserved label type (0x40..0xBF).
    LabelTooLong,
    /// A label would extend past the end of the buffer.
    MalformedName,
    /// The reconstructed name would exceed 256 octets.
    NameTooLong,
    /// The question count is not exactly one.
    UnsupportedQuestionCount,
    /// The message is, or would become, 65,535 bytes or more.
    PacketTooLarge,
    /// Bytes follow the last record.
    TrailingGarbage,
    /// A record's data length exceeds what remains of the buffer.
    RecordOverflow,
    /// The additional-record count cannot be incremented.
    TooManyAdditionalRecords,
    /// The additional section holds more than one OPT pseudo-record.
    DuplicateOpt,
}

} // verus!
